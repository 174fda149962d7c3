//! A staged executor that also groups by archetypes: within a stage, a system may share a
//! sub-stage with systems whose component borrows conflict with its own, as long as their
//! queries touch disjoint archetypes of the world.
//!
//! Systems first wait at the end of their stage; before a run, every system of a stage is
//! taken out again, in order, and reassigned: each to the first sub-stage it fits into
//! with the archetypes it touches now, or to a new sub-stage at the end.
use vstd::prelude::*;
use crate::metadata::{borrows_compatible, lemma_borrows_compatible_means_no_clash, SystemWithMetadata};
use crate::staged::{metadata_view, MetadataView};
use crate::type_set::{TypeKey, TypeSet};

verus! {

/// An archetype of the world, by index.
pub type ArchetypeKey = u64;

/// A sub-stage: its systems in order, their component borrows, and the archetypes their
/// queries touch.
pub ghost struct ArchInnerView<S> {
    pub systems: Seq<SystemWithMetadata<S>>,
    pub components_immutable: Set<TypeKey>,
    pub components_mutable: Set<TypeKey>,
    pub archetypes: Set<ArchetypeKey>,
}

/// A stage: its sub-stages, its resource borrows, the systems waiting to be assigned, and
/// the archetypes gathered for the system being assigned.
pub ghost struct ArchOuterView<S> {
    pub stages: Seq<ArchInnerView<S>>,
    pub resources_immutable: Set<TypeKey>,
    pub resources_mutable: Set<TypeKey>,
    pub unassigned: Seq<SystemWithMetadata<S>>,
    pub archetypes: Set<ArchetypeKey>,
}

/// A sub-stage without systems.
pub open spec fn empty_inner<S>() -> ArchInnerView<S> {
    ArchInnerView {
        systems: Seq::empty(),
        components_immutable: Set::empty(),
        components_mutable: Set::empty(),
        archetypes: Set::empty(),
    }
}

/// Whether a system with borrows `m`, touching `archetypes`, fits into sub-stage `st`:
/// they touch no archetype in common, or their component borrows fit.
pub open spec fn fits_arch<S>(st: ArchInnerView<S>, m: MetadataView, archetypes: Set<ArchetypeKey>) -> bool {
    st.archetypes.disjoint(archetypes)
        || borrows_compatible(m.components_immutable, m.components_mutable, st.components_immutable, st.components_mutable)
}

/// The index of the first sub-stage the system fits into, or the number of sub-stages.
pub open spec fn first_arch<S>(stages: Seq<ArchInnerView<S>>, m: MetadataView, archetypes: Set<ArchetypeKey>) -> int
    decreases stages.len(),
{
    if stages.len() == 0 {
        0
    } else if fits_arch(stages[0], m, archetypes) {
        0
    } else {
        1 + first_arch(stages.drop_first(), m, archetypes)
    }
}

/// Sub-stage `st` after `swm`, touching `archetypes`, joins it.
pub open spec fn arch_added<S>(st: ArchInnerView<S>, swm: SystemWithMetadata<S>, archetypes: Set<ArchetypeKey>) -> ArchInnerView<S> {
    ArchInnerView {
        systems: st.systems.push(swm),
        components_immutable: st.components_immutable.union(swm.metadata.components_immutable@),
        components_mutable: st.components_mutable.union(swm.metadata.components_mutable@),
        archetypes: st.archetypes.union(archetypes),
    }
}

/// The sub-stages after `swm`, touching `archetypes`, is assigned: it joins the first it
/// fits into, or a new one at the end.
pub open spec fn assigned<S>(stages: Seq<ArchInnerView<S>>, swm: SystemWithMetadata<S>, archetypes: Set<ArchetypeKey>) -> Seq<ArchInnerView<S>> {
    let i = first_arch(stages, metadata_view(swm.metadata), archetypes);
    if i < stages.len() {
        stages.update(i, arch_added(stages[i], swm, archetypes))
    } else {
        stages.push(arch_added(empty_inner(), swm, archetypes))
    }
}

/// The systems of the sub-stages, sub-stage by sub-stage.
pub open spec fn all_systems<S>(stages: Seq<ArchInnerView<S>>) -> Seq<SystemWithMetadata<S>>
    decreases stages.len(),
{
    if stages.len() == 0 {
        Seq::empty()
    } else {
        all_systems(stages.drop_last()) + stages.last().systems
    }
}

/// Stage `v` after `swm`, whose queries touch `archetypes`, is assigned.
pub open spec fn assign_view<S>(v: ArchOuterView<S>, swm: SystemWithMetadata<S>, archetypes: Seq<ArchetypeKey>) -> ArchOuterView<S> {
    ArchOuterView {
        stages: assigned(v.stages, swm, v.archetypes.union(archetypes.to_set())),
        archetypes: Set::<ArchetypeKey>::empty(),
        ..v
    }
}

/// Stage `v` after the systems of `systems` are assigned one by one, in order, the `i`-th
/// touching `archetypes[i]`.
pub open spec fn assign_all<S>(v: ArchOuterView<S>, systems: Seq<SystemWithMetadata<S>>, archetypes: Seq<Seq<ArchetypeKey>>) -> ArchOuterView<S>
    decreases systems.len(),
{
    if systems.len() == 0 {
        v
    } else {
        assign_view(
            assign_all(v, systems.drop_last(), archetypes.drop_last()),
            systems.last(),
            archetypes[systems.len() - 1],
        )
    }
}

/// A system fits into a sub-stage exactly when no archetype it touches is touched in the
/// sub-stage, or no component type is written by the system and read or written in the
/// sub-stage, or read by the system and written in the sub-stage.
pub proof fn lemma_fits_arch_means_no_clash<S>(st: ArchInnerView<S>, m: MetadataView, archetypes: Set<ArchetypeKey>)
    ensures
        fits_arch(st, m, archetypes) <==> (
            (forall|x: ArchetypeKey| !(st.archetypes.contains(x) && #[trigger] archetypes.contains(x)))
            || (forall|t: TypeKey|
                !(m.components_mutable.contains(t) && (st.components_mutable.contains(t) || st.components_immutable.contains(t)))
                    && !(m.components_immutable.contains(t) && st.components_mutable.contains(t)))),
{
    lemma_borrows_compatible_means_no_clash(m.components_immutable, m.components_mutable, st.components_immutable, st.components_mutable);
}

/// Once a system has joined a sub-stage, the sub-stage holds its systems, then the new one;
/// it reads and writes every component type it read or wrote before and every one the
/// system reads or writes, and touches every archetype it touched before and every one the
/// system touches, and no other.
pub proof fn lemma_arch_added_borrows<S>(st: ArchInnerView<S>, swm: SystemWithMetadata<S>, archetypes: Set<ArchetypeKey>)
    ensures
        arch_added(st, swm, archetypes).systems.len() == st.systems.len() + 1,
        forall|i: int| 0 <= i < st.systems.len() ==> #[trigger] arch_added(st, swm, archetypes).systems[i] == st.systems[i],
        arch_added(st, swm, archetypes).systems[st.systems.len() as int] == swm,
        forall|t: TypeKey| #[trigger] arch_added(st, swm, archetypes).components_immutable.contains(t)
            <==> (st.components_immutable.contains(t) || swm.metadata.components_immutable@.contains(t)),
        forall|t: TypeKey| #[trigger] arch_added(st, swm, archetypes).components_mutable.contains(t)
            <==> (st.components_mutable.contains(t) || swm.metadata.components_mutable@.contains(t)),
        forall|x: ArchetypeKey| #[trigger] arch_added(st, swm, archetypes).archetypes.contains(x)
            <==> (st.archetypes.contains(x) || archetypes.contains(x)),
{
}

/// Once a system has joined a sub-stage, no system that touches an archetype it touches
/// and writes a component type it reads or writes, or reads one it writes, fits into that
/// sub-stage.
pub proof fn lemma_arch_added_refuses_conflict<S>(
    st: ArchInnerView<S>,
    swm: SystemWithMetadata<S>,
    archetypes: Set<ArchetypeKey>,
    other: MetadataView,
    other_archetypes: Set<ArchetypeKey>,
    t: TypeKey,
    x: ArchetypeKey,
)
    requires
        archetypes.contains(x),
        other_archetypes.contains(x),
        ((swm.metadata.components_immutable@.contains(t) || swm.metadata.components_mutable@.contains(t))
            && other.components_mutable.contains(t))
            || (swm.metadata.components_mutable@.contains(t) && other.components_immutable.contains(t)),
    ensures
        !fits_arch(arch_added(st, swm, archetypes), other, other_archetypes),
{
    lemma_arch_added_borrows(st, swm, archetypes);
    lemma_fits_arch_means_no_clash(arch_added(st, swm, archetypes), other, other_archetypes);
}

/// A system fits into a stage exactly when no resource type is written by the system and
/// read or written in the stage, or read by the system and written in the stage.
pub proof fn lemma_fits_stage_means_no_clash<S>(st: ArchOuterView<S>, swm: SystemWithMetadata<S>)
    ensures
        fits_stage(st, swm) <==> (forall|t: TypeKey|
            !(swm.metadata.resources_mutable@.contains(t) && (st.resources_mutable.contains(t) || st.resources_immutable.contains(t)))
                && !(swm.metadata.resources_immutable@.contains(t) && st.resources_mutable.contains(t))),
{
    lemma_borrows_compatible_means_no_clash(
        swm.metadata.resources_immutable@,
        swm.metadata.resources_mutable@,
        st.resources_immutable,
        st.resources_mutable,
    );
}

/// The first sub-stage that a system joins is one it fits into, and no earlier one is.
pub proof fn lemma_first_arch<S>(stages: Seq<ArchInnerView<S>>, m: MetadataView, archetypes: Set<ArchetypeKey>)
    ensures
        0 <= first_arch(stages, m, archetypes) <= stages.len(),
        first_arch(stages, m, archetypes) < stages.len() ==> fits_arch(stages[first_arch(stages, m, archetypes)], m, archetypes),
        forall|j: int| 0 <= j < first_arch(stages, m, archetypes) ==> !fits_arch(#[trigger] stages[j], m, archetypes),
    decreases stages.len(),
{
    if stages.len() > 0 && !fits_arch(stages[0], m, archetypes) {
        lemma_first_arch(stages.drop_first(), m, archetypes);
        assert forall|j: int| 0 <= j < first_arch(stages, m, archetypes) implies !fits_arch(#[trigger] stages[j], m, archetypes) by {
            if j > 0 {
                assert(stages.drop_first()[j - 1] == stages[j]);
            }
        }
    }
}

/// Assigning a system changes one sub-stage only: the first it fits into, which it joins at
/// the end, or a new sub-stage at the end holding it alone when it fits into none.
pub proof fn lemma_assigned_effect<S>(stages: Seq<ArchInnerView<S>>, swm: SystemWithMetadata<S>, archetypes: Set<ArchetypeKey>)
    ensures
        ({
            let i = first_arch(stages, metadata_view(swm.metadata), archetypes);
            let after = assigned(stages, swm, archetypes);
            &&& 0 <= i <= stages.len()
            &&& i < stages.len() ==> after.len() == stages.len() && after[i].systems == stages[i].systems.push(swm)
            &&& i == stages.len() ==> after.len() == stages.len() + 1 && after[i].systems == seq![swm]
            &&& forall|j: int| 0 <= j < stages.len() && j != i ==> #[trigger] after[j] == stages[j]
        }),
{
    lemma_first_arch(stages, metadata_view(swm.metadata), archetypes);
    let i = first_arch(stages, metadata_view(swm.metadata), archetypes);
    if i == stages.len() {
        assert(Seq::<SystemWithMetadata<S>>::empty().push(swm) =~= seq![swm]);
    }
}

/// The systems of consecutive groups of sub-stages are those of the first group, then those
/// of the second.
pub proof fn lemma_all_systems_concat<S>(a: Seq<ArchInnerView<S>>, b: Seq<ArchInnerView<S>>)
    ensures
        all_systems(a + b) == all_systems(a) + all_systems(b),
    decreases b.len(),
{
    if b.len() == 0 {
        assert(a + b =~= a);
        assert(all_systems(a) + all_systems(b) =~= all_systems(a));
    } else {
        lemma_all_systems_concat(a, b.drop_last());
        assert((a + b).drop_last() =~= a + b.drop_last());
        assert((a + b).last() == b.last());
        assert(all_systems(a) + all_systems(b.drop_last()) + b.last().systems
            =~= all_systems(a) + (all_systems(b.drop_last()) + b.last().systems));
    }
}

/// The systems of a single sub-stage are its own, in order.
pub proof fn lemma_all_systems_single<S>(st: ArchInnerView<S>)
    ensures
        all_systems(seq![st]) == st.systems,
{
    let one = seq![st];
    assert(one.drop_last() =~= Seq::<ArchInnerView<S>>::empty());
    assert(one.last() == st);
    assert(all_systems(one.drop_last()) == Seq::<SystemWithMetadata<S>>::empty());
    assert(Seq::<SystemWithMetadata<S>>::empty() + st.systems =~= st.systems);
}

/// A sub-stage of systems that may run at the same time.
pub struct Stage2<S> {
    pub systems: Vec<SystemWithMetadata<S>>,
    pub components_immutable: TypeSet,
    pub components_mutable: TypeSet,
    pub archetypes: TypeSet,
}

impl<S> View for Stage2<S> {
    type V = ArchInnerView<S>;

    open spec fn view(&self) -> ArchInnerView<S> {
        ArchInnerView {
            systems: self.systems@,
            components_immutable: self.components_immutable@,
            components_mutable: self.components_mutable@,
            archetypes: self.archetypes@,
        }
    }
}

/// The sub-stages, as views.
pub open spec fn arch_inner_views<S>(stages: Seq<Stage2<S>>) -> Seq<ArchInnerView<S>> {
    stages.map_values(|st: Stage2<S>| st@)
}

impl<S> Stage2<S> {
    /// A sub-stage without systems.
    pub fn new() -> (r: Self)
        ensures
            r@ == empty_inner::<S>(),
    {
        let r = Stage2 {
            systems: Vec::new(),
            components_immutable: TypeSet::new(),
            components_mutable: TypeSet::new(),
            archetypes: TypeSet::new(),
        };
        proof {
            assert(r@.systems =~= Seq::<SystemWithMetadata<S>>::empty());
        }
        r
    }

    /// Whether the system, touching `archetypes`, fits into the sub-stage.
    pub fn is_compatible(&self, swm: &SystemWithMetadata<S>, archetypes: &TypeSet) -> (r: bool)
        ensures
            r == fits_arch(self@, metadata_view(swm.metadata), archetypes@),
    {
        self.archetypes.is_disjoint(archetypes)
            || swm.metadata.are_component_borrows_compatible(&self.components_immutable, &self.components_mutable)
    }

    /// Adds the system at the end of the sub-stage; the archetypes it touches move from
    /// `archetypes` to the sub-stage.
    pub fn add(&mut self, swm: SystemWithMetadata<S>, archetypes: &mut TypeSet)
        ensures
            final(self)@ == arch_added(old(self)@, swm, old(archetypes)@),
            final(self)@.systems == old(self)@.systems.push(swm),
            final(self)@.components_immutable == old(self)@.components_immutable.union(swm.metadata.components_immutable@),
            final(self)@.components_mutable == old(self)@.components_mutable.union(swm.metadata.components_mutable@),
            final(self)@.archetypes == old(self)@.archetypes.union(old(archetypes)@),
            final(archetypes)@ == Set::<ArchetypeKey>::empty(),
    {
        self.archetypes.extend(archetypes);
        archetypes.clear();
        self.components_immutable.extend(&swm.metadata.components_immutable);
        self.components_mutable.extend(&swm.metadata.components_mutable);
        self.systems.push(swm);
    }

    /// Takes out every system, in order, and forgets the sub-stage's borrows and archetypes.
    pub fn drain(&mut self) -> (r: Vec<SystemWithMetadata<S>>)
        ensures
            r@ == old(self)@.systems,
            final(self)@ == empty_inner::<S>(),
    {
        self.archetypes.clear();
        self.components_immutable.clear();
        self.components_mutable.clear();
        let mut systems: Vec<SystemWithMetadata<S>> = Vec::new();
        std::mem::swap(&mut systems, &mut self.systems);
        proof {
            assert(self@.systems =~= Seq::<SystemWithMetadata<S>>::empty());
        }
        systems
    }
}

/// A stage of systems whose resource borrows fit together.
pub struct Stage1<S> {
    stages: Vec<Stage2<S>>,
    resources_immutable: TypeSet,
    resources_mutable: TypeSet,
    unassigned_tail: Vec<SystemWithMetadata<S>>,
    archetypes: TypeSet,
}

impl<S> View for Stage1<S> {
    type V = ArchOuterView<S>;

    closed spec fn view(&self) -> ArchOuterView<S> {
        ArchOuterView {
            stages: arch_inner_views(self.stages@),
            resources_immutable: self.resources_immutable@,
            resources_mutable: self.resources_mutable@,
            unassigned: self.unassigned_tail@,
            archetypes: self.archetypes@,
        }
    }
}

impl<S> Stage1<S> {
    /// A stage without systems.
    pub fn new() -> (r: Self)
        ensures
            r@.stages.len() == 0,
            r@.resources_immutable == Set::<TypeKey>::empty(),
            r@.resources_mutable == Set::<TypeKey>::empty(),
            r@.unassigned.len() == 0,
            r@.archetypes == Set::<ArchetypeKey>::empty(),
    {
        Stage1 {
            stages: Vec::new(),
            resources_immutable: TypeSet::new(),
            resources_mutable: TypeSet::new(),
            unassigned_tail: Vec::new(),
            archetypes: TypeSet::new(),
        }
    }

    /// Whether the system's resource borrows fit with those of the stage.
    pub fn is_compatible(&self, swm: &SystemWithMetadata<S>) -> (r: bool)
        ensures
            r == borrows_compatible(
                swm.metadata.resources_immutable@,
                swm.metadata.resources_mutable@,
                self@.resources_immutable,
                self@.resources_mutable,
            ),
    {
        swm.metadata.are_resource_borrows_compatible(&self.resources_immutable, &self.resources_mutable)
    }

    /// Adds the system's resource borrows to the stage; the system waits at the end of the
    /// stage to be assigned.
    pub fn add(&mut self, swm: SystemWithMetadata<S>)
        ensures
            final(self)@ == (ArchOuterView {
                resources_immutable: old(self)@.resources_immutable.union(swm.metadata.resources_immutable@),
                resources_mutable: old(self)@.resources_mutable.union(swm.metadata.resources_mutable@),
                unassigned: old(self)@.unassigned.push(swm),
                ..old(self)@
            }),
    {
        self.resources_immutable.extend(&swm.metadata.resources_immutable);
        self.resources_mutable.extend(&swm.metadata.resources_mutable);
        self.unassigned_tail.push(swm);
    }

    /// Takes out every system of the stage to be assigned again: those of the sub-stages,
    /// sub-stage by sub-stage, then those waiting. The sub-stages stay, empty.
    pub fn take_unassigned(&mut self) -> (r: Vec<SystemWithMetadata<S>>)
        ensures
            r@ == all_systems(old(self)@.stages) + old(self)@.unassigned,
            final(self)@.stages == Seq::new(old(self)@.stages.len(), |i: int| empty_inner::<S>()),
            final(self)@.unassigned.len() == 0,
            final(self)@.resources_immutable == old(self)@.resources_immutable,
            final(self)@.resources_mutable == old(self)@.resources_mutable,
            final(self)@.archetypes == old(self)@.archetypes,
    {
        let ghost v0 = arch_inner_views(self.stages@);
        let mut out: Vec<SystemWithMetadata<S>> = Vec::new();
        let mut i: usize = 0;
        while i < self.stages.len()
            invariant
                0 <= i <= self.stages@.len(),
                self.stages@.len() == v0.len(),
                v0 == arch_inner_views(old(self).stages@),
                out@ == all_systems(v0.take(i as int)),
                forall|j: int| 0 <= j < i ==> #[trigger] self.stages@[j]@ == empty_inner::<S>(),
                forall|j: int| i <= j < v0.len() ==> #[trigger] self.stages@[j]@ == v0[j],
                self.resources_immutable == old(self).resources_immutable,
                self.resources_mutable == old(self).resources_mutable,
                self.unassigned_tail == old(self).unassigned_tail,
                self.archetypes == old(self).archetypes,
            decreases self.stages@.len() - i,
        {
            let mut stage = Stage2::new();
            self.stages.set_and_swap(i, &mut stage);
            let mut drained = stage.drain();
            self.stages.set_and_swap(i, &mut stage);
            proof {
                assert(v0.take(i + 1).drop_last() == v0.take(i as int));
                assert(v0.take(i + 1).last() == v0[i as int]);
            }
            out.append(&mut drained);
            i = i + 1;
        }
        out.append(&mut self.unassigned_tail);
        proof {
            assert(v0.take(i as int) == v0);
            assert(arch_inner_views(self.stages@) =~= Seq::new(v0.len(), |k: int| empty_inner::<S>()));
        }
        out
    }

    /// Assigns a system taken out by [`take_unassigned`](Self::take_unassigned), whose
    /// queries touch `archetypes` now: it joins the first sub-stage it fits into, or a new
    /// sub-stage at the end.
    pub fn assign(&mut self, swm: SystemWithMetadata<S>, archetypes: &Vec<ArchetypeKey>)
        ensures
            final(self)@ == (ArchOuterView {
                stages: assigned(old(self)@.stages, swm, old(self)@.archetypes.union(archetypes@.to_set())),
                archetypes: Set::<ArchetypeKey>::empty(),
                ..old(self)@
            }),
    {
        let ghost gathered = self.archetypes@.union(archetypes@.to_set());
        let ghost m = metadata_view(swm.metadata);
        let mut k: usize = 0;
        while k < archetypes.len()
            invariant
                0 <= k <= archetypes@.len(),
                self.archetypes@ == old(self).archetypes@.union(archetypes@.take(k as int).to_set()),
                self.stages == old(self).stages,
                self.resources_immutable == old(self).resources_immutable,
                self.resources_mutable == old(self).resources_mutable,
                self.unassigned_tail == old(self).unassigned_tail,
            decreases archetypes@.len() - k,
        {
            self.archetypes.insert(archetypes[k]);
            proof {
                let before = archetypes@.take(k as int);
                let after = archetypes@.take(k + 1);
                assert(after == before.push(archetypes@[k as int]));
                crate::type_set::lemma_push_to_set(before, archetypes@[k as int]);
                assert(self.archetypes@ =~= old(self).archetypes@.union(after.to_set()));
            }
            k = k + 1;
        }
        proof {
            assert(archetypes@.take(k as int) == archetypes@);
        }
        let ghost before = arch_inner_views(self.stages@);
        proof { lemma_first_arch(before, m, gathered); }
        let mut i: usize = 0;
        while i < self.stages.len() && !self.stages[i].is_compatible(&swm, &self.archetypes)
            invariant
                0 <= i <= self.stages@.len(),
                before == arch_inner_views(self.stages@),
                m == metadata_view(swm.metadata),
                gathered == self.archetypes@,
                forall|j: int| 0 <= j < i ==> !fits_arch(#[trigger] before[j], m, gathered),
                0 <= first_arch(before, m, gathered) <= before.len(),
                first_arch(before, m, gathered) < before.len() ==> fits_arch(before[first_arch(before, m, gathered)], m, gathered),
                forall|j: int| 0 <= j < first_arch(before, m, gathered) ==> !fits_arch(#[trigger] before[j], m, gathered),
            decreases self.stages@.len() - i,
        {
            proof {
                assert(before[i as int] == self.stages@[i as int]@);
            }
            i = i + 1;
        }
        proof {
            if i < self.stages@.len() {
                assert(before[i as int] == self.stages@[i as int]@);
                if first_arch(before, m, gathered) < i {
                    assert(!fits_arch(before[first_arch(before, m, gathered)], m, gathered));
                }
                if first_arch(before, m, gathered) > i {
                    assert(!fits_arch(before[i as int], m, gathered));
                }
            } else if first_arch(before, m, gathered) < i {
                assert(!fits_arch(before[first_arch(before, m, gathered)], m, gathered));
            }
        }
        if i == self.stages.len() {
            self.stages.push(Stage2::new());
            proof {
                assert(arch_inner_views(self.stages@) =~= before.push(empty_inner::<S>()));
            }
        }
        let ghost widened = arch_inner_views(self.stages@);
        let mut stage = Stage2::new();
        self.stages.set_and_swap(i, &mut stage);
        stage.add(swm, &mut self.archetypes);
        self.stages.set_and_swap(i, &mut stage);
        proof {
            assert(widened[i as int] == (if i < before.len() { before[i as int] } else { empty_inner::<S>() }));
            assert(arch_inner_views(self.stages@) =~= assigned(before, swm, gathered));
        }
    }
}

impl<S> Stage1<S> {
    /// Takes every system out again (see [`take_unassigned`](Self::take_unassigned)) and
    /// assigns each in turn (see [`assign`](Self::assign)); the `i`-th system taken out
    /// touches the archetypes `archetypes[i]` now.
    pub fn rebuild(&mut self, archetypes: &Vec<Vec<ArchetypeKey>>)
        requires
            archetypes@.len() == all_systems(old(self)@.stages).len() + old(self)@.unassigned.len(),
        ensures
            final(self)@ == assign_all(
                ArchOuterView {
                    stages: Seq::new(old(self)@.stages.len(), |i: int| empty_inner::<S>()),
                    unassigned: Seq::empty(),
                    ..old(self)@
                },
                all_systems(old(self)@.stages) + old(self)@.unassigned,
                archetypes@.map_values(|a: Vec<ArchetypeKey>| a@),
            ),
    {
        let ghost all = all_systems(self@.stages) + self@.unassigned;
        let ghost av = archetypes@.map_values(|a: Vec<ArchetypeKey>| a@);
        let mut pending = self.take_unassigned();
        let ghost v0 = self@;
        proof {
            assert(v0.unassigned =~= Seq::<SystemWithMetadata<S>>::empty());
            assert(v0 == (ArchOuterView {
                stages: Seq::new(old(self)@.stages.len(), |i: int| empty_inner::<S>()),
                unassigned: Seq::empty(),
                ..old(self)@
            }));
            assert(all.take(0) =~= Seq::<SystemWithMetadata<S>>::empty());
            assert(av.take(0) =~= Seq::<Seq<ArchetypeKey>>::empty());
        }
        let n = pending.len();
        let mut k: usize = 0;
        while k < n
            invariant
                0 <= k <= n,
                n == all.len(),
                archetypes@.len() == n,
                av == archetypes@.map_values(|a: Vec<ArchetypeKey>| a@),
                pending@ == all.skip(k as int),
                self@ == assign_all(v0, all.take(k as int), av.take(k as int)),
            decreases n - k,
        {
            proof {
                assert(all.skip(k as int)[0] == all[k as int]);
            }
            let swm = pending.remove(0);
            self.assign(swm, &archetypes[k]);
            proof {
                assert(pending@ =~= all.skip(k + 1));
                let t1 = all.take(k + 1);
                let a1 = av.take(k + 1);
                assert(t1.drop_last() == all.take(k as int));
                assert(a1.drop_last() == av.take(k as int));
                assert(t1.last() == all[k as int]);
                assert(a1[t1.len() - 1] == archetypes@[k as int]@);
            }
            k = k + 1;
        }
        proof {
            assert(all.take(k as int) == all);
            assert(av.take(k as int) == av);
        }
    }
}

/// An executor of stages, grouped by resources and, within a stage, by archetypes.
pub struct Executor<S> {
    stages: Vec<Stage1<S>>,
}

/// The stages, as views.
pub open spec fn arch_outer_views<S>(stages: Seq<Stage1<S>>) -> Seq<ArchOuterView<S>> {
    stages.map_values(|st: Stage1<S>| st@)
}

/// Whether a system with these resource borrows fits into stage `st`.
pub open spec fn fits_stage<S>(st: ArchOuterView<S>, swm: SystemWithMetadata<S>) -> bool {
    borrows_compatible(swm.metadata.resources_immutable@, swm.metadata.resources_mutable@, st.resources_immutable, st.resources_mutable)
}

/// The index of the first stage that the system fits into, or the number of stages.
pub open spec fn first_stage<S>(stages: Seq<ArchOuterView<S>>, swm: SystemWithMetadata<S>) -> int
    decreases stages.len(),
{
    if stages.len() == 0 {
        0
    } else if fits_stage(stages[0], swm) {
        0
    } else {
        1 + first_stage(stages.drop_first(), swm)
    }
}

/// The first stage that a system joins is one it fits into, and no earlier one is.
pub proof fn lemma_first_stage<S>(stages: Seq<ArchOuterView<S>>, swm: SystemWithMetadata<S>)
    ensures
        0 <= first_stage(stages, swm) <= stages.len(),
        first_stage(stages, swm) < stages.len() ==> fits_stage(stages[first_stage(stages, swm)], swm),
        forall|j: int| 0 <= j < first_stage(stages, swm) ==> !fits_stage(#[trigger] stages[j], swm),
    decreases stages.len(),
{
    if stages.len() > 0 && !fits_stage(stages[0], swm) {
        lemma_first_stage(stages.drop_first(), swm);
        assert forall|j: int| 0 <= j < first_stage(stages, swm) implies !fits_stage(#[trigger] stages[j], swm) by {
            if j > 0 {
                assert(stages.drop_first()[j - 1] == stages[j]);
            }
        }
    }
}

impl<S> Executor<S> {
    /// The stages, in order.
    pub closed spec fn stages_view(&self) -> Seq<ArchOuterView<S>> {
        arch_outer_views(self.stages@)
    }

    /// An executor without stages.
    pub fn new() -> (r: Self)
        ensures
            r.stages_view().len() == 0,
    {
        let r = Executor { stages: Vec::new() };
        proof {
            assert(arch_outer_views(r.stages@) =~= Seq::<ArchOuterView<S>>::empty());
        }
        r
    }

    /// Adds the system to the first stage it fits into, where it waits to be assigned; one
    /// that fits into no stage is not kept.
    pub fn add(&mut self, swm: SystemWithMetadata<S>)
        ensures
            ({
                let before = old(self).stages_view();
                let i = first_stage(before, swm);
                final(self).stages_view() == if i < before.len() {
                    before.update(i, ArchOuterView {
                        resources_immutable: before[i].resources_immutable.union(swm.metadata.resources_immutable@),
                        resources_mutable: before[i].resources_mutable.union(swm.metadata.resources_mutable@),
                        unassigned: before[i].unassigned.push(swm),
                        ..before[i]
                    })
                } else {
                    before
                }
            }),
    {
        let ghost before = arch_outer_views(self.stages@);
        proof { lemma_first_stage(before, swm); }
        let mut i: usize = 0;
        while i < self.stages.len() && !self.stages[i].is_compatible(&swm)
            invariant
                0 <= i <= self.stages@.len(),
                before == arch_outer_views(self.stages@),
                forall|j: int| 0 <= j < i ==> !fits_stage(#[trigger] before[j], swm),
                0 <= first_stage(before, swm) <= before.len(),
                first_stage(before, swm) < before.len() ==> fits_stage(before[first_stage(before, swm)], swm),
                forall|j: int| 0 <= j < first_stage(before, swm) ==> !fits_stage(#[trigger] before[j], swm),
            decreases self.stages@.len() - i,
        {
            proof {
                assert(before[i as int] == self.stages@[i as int]@);
            }
            i = i + 1;
        }
        proof {
            if i < self.stages@.len() {
                assert(before[i as int] == self.stages@[i as int]@);
                if first_stage(before, swm) < i {
                    assert(!fits_stage(before[first_stage(before, swm)], swm));
                }
                if first_stage(before, swm) > i {
                    assert(!fits_stage(before[i as int], swm));
                }
            } else if first_stage(before, swm) < i {
                assert(!fits_stage(before[first_stage(before, swm)], swm));
            }
        }
        if i < self.stages.len() {
            let ghost added = swm;
            let mut stage = Stage1::new();
            self.stages.set_and_swap(i, &mut stage);
            stage.add(swm);
            self.stages.set_and_swap(i, &mut stage);
            proof {
                assert(arch_outer_views(self.stages@) =~= before.update(i as int, ArchOuterView {
                    resources_immutable: before[i as int].resources_immutable.union(added.metadata.resources_immutable@),
                    resources_mutable: before[i as int].resources_mutable.union(added.metadata.resources_mutable@),
                    unassigned: before[i as int].unassigned.push(added),
                    ..before[i as int]
                }));
            }
        }
    }

    /// Adds the system as [`add`](Self::add) does, and hands the executor back.
    pub fn with(self, swm: SystemWithMetadata<S>) -> (r: Self)
        ensures
            ({
                let before = self.stages_view();
                let i = first_stage(before, swm);
                r.stages_view() == if i < before.len() {
                    before.update(i, ArchOuterView {
                        resources_immutable: before[i].resources_immutable.union(swm.metadata.resources_immutable@),
                        resources_mutable: before[i].resources_mutable.union(swm.metadata.resources_mutable@),
                        unassigned: before[i].unassigned.push(swm),
                        ..before[i]
                    })
                } else {
                    before
                }
            }),
    {
        let mut executor = self;
        executor.add(swm);
        executor
    }

    /// Number of stages.
    pub fn stage_count(&self) -> (r: usize)
        ensures
            r == self.stages_view().len(),
    {
        self.stages.len()
    }
}

} // verus!
