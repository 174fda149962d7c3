//! Pools of queues of deferred world modifications.
//!
//! A pool holds slots; a slot holds a queue while nobody has it out, and is empty while
//! a queue taken from it is in use. Taking a queue takes the first slot that holds one,
//! or opens a new slot when every queue is out; a queue goes back to the slot it came
//! from. The closures a queue collects are of the caller's type `C`.
use vstd::prelude::*;

verus! {

/// The index of the first slot that holds a queue, or the number of slots if none does.
pub open spec fn first_free<C>(slots: Seq<Option<Seq<C>>>) -> int
    decreases slots.len(),
{
    if slots.len() == 0 {
        0
    } else if slots[0] is Some {
        0
    } else {
        1 + first_free(slots.drop_first())
    }
}

/// Where a queue is taken from, and the slots afterwards: the first slot that holds a
/// queue is emptied, or a new empty slot is opened when there is none.
pub open spec fn take_slot<C>(slots: Seq<Option<Seq<C>>>) -> (int, Seq<Option<Seq<C>>>) {
    let i = first_free(slots);
    if i < slots.len() {
        (i, slots.update(i, None))
    } else {
        (i, slots.push(None))
    }
}

/// The queue handed out from `slots`: what the first free slot held, or an empty queue.
pub open spec fn taken_queue<C>(slots: Seq<Option<Seq<C>>>) -> Seq<C> {
    let i = first_free(slots);
    if i < slots.len() {
        slots[i]->0
    } else {
        Seq::empty()
    }
}

/// Every closure held by the slots, slot by slot, each queue in order.
pub open spec fn all_queued<C>(slots: Seq<Option<Seq<C>>>) -> Seq<C>
    decreases slots.len(),
{
    if slots.len() == 0 {
        Seq::empty()
    } else {
        let rest = all_queued(slots.drop_last());
        match slots.last() {
            Some(q) => rest + q,
            None => rest,
        }
    }
}

/// The slots with every held queue emptied and every empty slot left empty.
pub open spec fn emptied<C>(slots: Seq<Option<Seq<C>>>) -> Seq<Option<Seq<C>>> {
    slots.map_values(|o: Option<Seq<C>>| match o {
        Some(_) => Some(Seq::<C>::empty()),
        None => None,
    })
}

/// `first_free` points at a slot that holds a queue, after every slot before it is empty.
pub proof fn lemma_first_free<C>(slots: Seq<Option<Seq<C>>>)
    ensures
        0 <= first_free(slots) <= slots.len(),
        first_free(slots) < slots.len() ==> slots[first_free(slots)] is Some,
        forall|j: int| 0 <= j < first_free(slots) ==> #[trigger] slots[j] is None,
    decreases slots.len(),
{
    if slots.len() > 0 && slots[0] is None {
        lemma_first_free(slots.drop_first());
        assert forall|j: int| 0 <= j < first_free(slots) implies #[trigger] slots[j] is None by {
            if j > 0 {
                assert(slots.drop_first()[j - 1] == slots[j]);
            }
        }
    }
}

/// Taking a queue empties the first slot that holds one, after only empty slots, and
/// leaves every other slot as it was; when every slot is empty, one more empty slot is
/// opened at the end. The queue handed out is what the emptied slot held.
pub proof fn lemma_take_slot_effect<C>(slots: Seq<Option<Seq<C>>>)
    ensures
        ({
            let (i, after) = take_slot(slots);
            &&& 0 <= i <= slots.len()
            &&& forall|j: int| 0 <= j < i ==> #[trigger] slots[j] is None
            &&& i < slots.len() ==> slots[i] is Some && after.len() == slots.len() && slots[i] == Some(taken_queue(slots))
            &&& i == slots.len() ==> after.len() == slots.len() + 1 && taken_queue(slots) == Seq::<C>::empty()
            &&& after[i] is None
            &&& forall|j: int| 0 <= j < slots.len() && j != i ==> #[trigger] after[j] == slots[j]
        }),
{
    lemma_first_free(slots);
}

/// The closures of consecutive groups of slots are those of the first group, then those of
/// the second.
pub proof fn lemma_all_queued_concat<C>(a: Seq<Option<Seq<C>>>, b: Seq<Option<Seq<C>>>)
    ensures
        all_queued(a + b) == all_queued(a) + all_queued(b),
    decreases b.len(),
{
    if b.len() == 0 {
        assert(a + b =~= a);
        assert(all_queued(a) + all_queued(b) =~= all_queued(a));
    } else {
        lemma_all_queued_concat(a, b.drop_last());
        assert((a + b).drop_last() =~= a + b.drop_last());
        assert((a + b).last() == b.last());
        match b.last() {
            Some(q) => {
                assert(all_queued(a) + all_queued(b.drop_last()) + q =~= all_queued(a) + (all_queued(b.drop_last()) + q));
            },
            None => {},
        }
    }
}

/// The closures of a single slot holding a queue are that queue, in order.
pub proof fn lemma_all_queued_single<C>(q: Seq<C>)
    ensures
        all_queued(seq![Some(q)]) == q,
{
    let one = seq![Some(q)];
    assert(one.drop_last() =~= Seq::<Option<Seq<C>>>::empty());
    assert(one.last() == Some(q));
    assert(all_queued(one.drop_last()) == Seq::<C>::empty());
    assert(Seq::<C>::empty() + q =~= q);
}

/// A queue that has been taken and not given back is never handed out again: the next
/// queue taken comes from another slot.
pub proof fn lemma_taken_slot_not_reused<C>(slots: Seq<Option<Seq<C>>>)
    ensures
        take_slot(take_slot(slots).1).0 != take_slot(slots).0,
{
    let (i, s1) = take_slot(slots);
    lemma_first_free(slots);
    lemma_first_free(s1);
    let j = first_free(s1);
    if j == i {
        assert(s1[i] is None);
    }
}

/// Giving a taken queue back unchanged to the slot it came from restores the slots, when
/// it came from a slot that was already there.
pub proof fn lemma_return_restores<C>(slots: Seq<Option<Seq<C>>>)
    requires
        first_free(slots) < slots.len(),
    ensures
        take_slot(slots).1.update(take_slot(slots).0, Some(taken_queue(slots))) == slots,
{
    lemma_first_free(slots);
    let i = first_free(slots);
    assert(slots.update(i, None).update(i, Some(slots[i]->0)) =~= slots);
}

/// Applying the queues empties them: a second application finds nothing to apply.
pub proof fn lemma_apply_empties<C>(slots: Seq<Option<Seq<C>>>)
    ensures
        all_queued(emptied(slots)) == Seq::<C>::empty(),
    decreases slots.len(),
{
    if slots.len() > 0 {
        lemma_apply_empties(slots.drop_last());
        assert(emptied(slots).drop_last() =~= emptied(slots.drop_last()));
        assert(emptied(slots).last() == (match slots.last() {
            Some(_) => Some(Seq::<C>::empty()),
            None => None,
        }));
        assert(all_queued(emptied(slots)) =~= Seq::<C>::empty());
    }
}

/// A pool of closure queues that are filled while systems run and applied afterwards.
pub struct ModQueuePool<C> {
    slots: Vec<Option<Vec<C>>>,
}

/// A queue taken from a [`ModQueuePool`], remembering its slot.
pub struct ModQueue<C> {
    closures: Option<Vec<C>>,
    index: usize,
}

/// The contents of the slots of a pool.
pub open spec fn slots_view<C>(slots: Seq<Option<Vec<C>>>) -> Seq<Option<Seq<C>>> {
    slots.map_values(|o: Option<Vec<C>>| match o {
        Some(v) => Some(v@),
        None => None,
    })
}

/// `capacity` slots, each holding an empty queue.
pub open spec fn fresh_slots<C>(capacity: nat) -> Seq<Option<Seq<C>>> {
    Seq::new(capacity, |i: int| Some(Seq::<C>::empty()))
}

/// `capacity` slots, each holding an empty queue.
fn fresh_slot_vec<C>(capacity: usize) -> (r: Vec<Option<Vec<C>>>)
    ensures
        slots_view(r@) == fresh_slots::<C>(capacity as nat),
{
    let mut slots: Vec<Option<Vec<C>>> = Vec::new();
    let mut i: usize = 0;
    while i < capacity
        invariant
            0 <= i <= capacity,
            slots@.len() == i,
            slots_view(slots@) == fresh_slots::<C>(i as nat),
        decreases capacity - i,
    {
        let ghost prev = slots@;
        let fresh: Vec<C> = Vec::new();
        slots.push(Some(fresh));
        i = i + 1;
        proof {
            assert forall|j: int| 0 <= j < i implies #[trigger] slots_view(slots@)[j] == fresh_slots::<C>(i as nat)[j] by {
                if j < i - 1 {
                    assert(slots@[j] == prev[j]);
                    assert(slots_view(prev)[j] == fresh_slots::<C>((i - 1) as nat)[j]);
                } else {
                    assert(slots@[j] == Some(fresh));
                }
            }
            assert(slots_view(slots@) =~= fresh_slots::<C>(i as nat));
        }
    }
    slots
}

/// Takes the queue from the first slot that holds one, opening a slot if none does.
fn take_from_slots<C>(slots: &mut Vec<Option<Vec<C>>>) -> (r: (usize, Vec<C>))
    requires
        old(slots)@.len() < usize::MAX,
    ensures
        r.0 == take_slot(slots_view(old(slots)@)).0,
        slots_view(final(slots)@) == take_slot(slots_view(old(slots)@)).1,
        r.1@ == taken_queue(slots_view(old(slots)@)),
{
    let ghost v0 = slots_view(slots@);
    proof { lemma_first_free(v0); }
    let mut i: usize = 0;
    while i < slots.len()
        invariant
            0 <= i <= slots@.len(),
            v0 == slots_view(slots@),
            v0 == slots_view(old(slots)@),
            v0.len() == slots@.len(),
            slots@.len() < usize::MAX,
            forall|j: int| 0 <= j < i ==> (#[trigger] slots@[j]) is None,
            0 <= first_free(v0) <= v0.len(),
            first_free(v0) < v0.len() ==> v0[first_free(v0)] is Some,
            forall|j: int| 0 <= j < first_free(v0) ==> #[trigger] v0[j] is None,
        decreases slots@.len() - i,
    {
        if slots[i].is_some() {
            proof {
                if first_free(v0) < i {
                    assert(slots@[first_free(v0)] is None);
                    assert(v0[first_free(v0)] is None);
                }
                if first_free(v0) > i {
                    assert(v0[i as int] is None);
                }
            }
            let mut taken: Option<Vec<C>> = None;
            slots.set_and_swap(i, &mut taken);
            let queue = match taken {
                Some(q) => q,
                None => Vec::new(),
            };
            proof {
                assert(slots_view(slots@) =~= v0.update(i as int, None));
            }
            return (i, queue);
        }
        proof {
            assert(v0[i as int] is None);
        }
        i = i + 1;
    }
    proof {
        if first_free(v0) < v0.len() {
            assert(slots@[first_free(v0)] is None);
            assert(v0[first_free(v0)] is None);
        }
    }
    slots.push(None);
    proof {
        assert(slots_view(slots@) =~= v0.push(None));
    }
    (slots.len() - 1, Vec::new())
}

/// Puts `queue` into slot `index`.
fn put_into_slot<C>(slots: &mut Vec<Option<Vec<C>>>, index: usize, queue: Vec<C>)
    requires
        index < old(slots)@.len(),
    ensures
        slots_view(final(slots)@) == slots_view(old(slots)@).update(index as int, Some(queue@)),
{
    let mut q = Some(queue);
    slots.set_and_swap(index, &mut q);
    proof {
        assert(slots_view(slots@) =~= slots_view(old(slots)@).update(index as int, Some(queue@)));
    }
}

/// Takes every closure out of the slots, slot by slot, leaving every held queue empty.
fn drain_slots<C>(slots: &mut Vec<Option<Vec<C>>>) -> (r: Vec<C>)
    ensures
        r@ == all_queued(slots_view(old(slots)@)),
        slots_view(final(slots)@) == emptied(slots_view(old(slots)@)),
{
    let ghost v0 = slots_view(slots@);
    let mut out: Vec<C> = Vec::new();
    let mut i: usize = 0;
    while i < slots.len()
        invariant
            0 <= i <= slots@.len(),
            slots@.len() == v0.len(),
            out@ == all_queued(v0.take(i as int)),
            slots_view(slots@) == emptied(v0.take(i as int)) + v0.skip(i as int),
        decreases slots@.len() - i,
    {
        let mut taken: Option<Vec<C>> = None;
        slots.set_and_swap(i, &mut taken);
        proof {
            assert(v0.take(i + 1).drop_last() == v0.take(i as int));
            assert(v0.take(i + 1).last() == v0[i as int]);
            assert((emptied(v0.take(i as int)) + v0.skip(i as int))[i as int] == v0[i as int]);
        }
        let ghost before = slots@;
        let ghost out0 = out@;
        match taken {
            Some(mut q) => {
                out.append(&mut q);
                let mut back = Some(q);
                slots.set_and_swap(i, &mut back);
            },
            None => {},
        }
        proof {
            let target = emptied(v0.take(i + 1)) + v0.skip(i + 1);
            let prior = emptied(v0.take(i as int)) + v0.skip(i as int);
            assert forall|j: int| 0 <= j < slots@.len() implies #[trigger] slots_view(slots@)[j] == target[j] by {
                if j != i {
                    assert(slots@[j] == before[j]);
                    assert(slots_view(before)[j] == prior[j]);
                    if j < i {
                        assert(v0.take(i + 1)[j] == v0.take(i as int)[j]);
                    } else {
                        assert(v0.skip(i + 1)[j - i - 1] == v0.skip(i as int)[j - i]);
                    }
                } else {
                    assert(v0.take(i + 1)[j] == v0[i as int]);
                }
            }
            assert(slots_view(slots@) =~= target);
        }
        i = i + 1;
    }
    proof {
        assert(v0.take(i as int) == v0);
        assert(v0.skip(i as int) =~= Seq::<Option<Seq<C>>>::empty());
        assert(slots_view(slots@) =~= emptied(v0));
    }
    out
}

impl<C> ModQueuePool<C> {
    /// The queues of the slots: `Some` with the closures a slot holds, `None` for a slot
    /// whose queue is out.
    pub closed spec fn view_slots(&self) -> Seq<Option<Seq<C>>> {
        slots_view(self.slots@)
    }

    /// A pool of four empty queues.
    pub fn new() -> (r: Self)
        ensures
            r.view_slots() == fresh_slots::<C>(4),
    {
        Self::with_capacity(4)
    }

    /// A pool of `capacity` empty queues.
    pub fn with_capacity(capacity: usize) -> (r: Self)
        ensures
            r.view_slots() == fresh_slots::<C>(capacity as nat),
    {
        ModQueuePool { slots: fresh_slot_vec(capacity) }
    }

    /// Takes the queue of the first slot that holds one, or a new empty queue in a new
    /// slot when every queue is out.
    pub fn new_mod_queue(&mut self) -> (r: ModQueue<C>)
        requires
            old(self).view_slots().len() < usize::MAX,
        ensures
            r.index() == take_slot(old(self).view_slots()).0,
            r.closures() == Some(taken_queue(old(self).view_slots())),
            final(self).view_slots() == take_slot(old(self).view_slots()).1,
    {
        let (index, closures) = take_from_slots(&mut self.slots);
        ModQueue { closures: Some(closures), index }
    }

    /// Gives a queue back to the slot it came from, with the closures it holds.
    pub fn return_mod_queue(&mut self, queue: ModQueue<C>)
        requires
            queue.index() < old(self).view_slots().len(),
        ensures
            final(self).view_slots() == old(self).view_slots().update(
                queue.index() as int,
                match queue.closures() {
                    Some(q) => Some(q),
                    None => None,
                },
            ),
    {
        let ModQueue { closures, index } = queue;
        match closures {
            Some(q) => put_into_slot(&mut self.slots, index, q),
            None => {
                let mut empty: Option<Vec<C>> = None;
                self.slots.set_and_swap(index, &mut empty);
                proof {
                    assert(slots_view(self.slots@) =~= slots_view(old(self).slots@).update(index as int, None));
                }
            },
        }
    }

    /// Takes out every queued closure, slot by slot and each queue in order, to be
    /// applied in that order; the queues stay in their slots, empty.
    pub fn apply_all(&mut self) -> (r: Vec<C>)
        ensures
            r@ == all_queued(old(self).view_slots()),
            final(self).view_slots() == emptied(old(self).view_slots()),
    {
        drain_slots(&mut self.slots)
    }
}

impl<C> ModQueue<C> {
    /// The closures of the queue; `None` only for a queue whose contents were taken.
    pub closed spec fn closures(&self) -> Option<Seq<C>> {
        match self.closures {
            Some(v) => Some(v@),
            None => None,
        }
    }

    /// The slot the queue came from.
    pub closed spec fn index(&self) -> nat {
        self.index as nat
    }

    /// Appends a closure to the queue.
    pub fn push(&mut self, closure: C)
        requires
            old(self).closures() is Some,
        ensures
            final(self).closures() == Some(old(self).closures()->0.push(closure)),
            final(self).index() == old(self).index(),
    {
        let mut taken: Option<Vec<C>> = None;
        std::mem::swap(&mut taken, &mut self.closures);
        match taken {
            Some(mut q) => {
                q.push(closure);
                self.closures = Some(q);
            },
            None => {},
        }
    }
}

/// A pool of queues of world modifications; a queue goes back to the pool empty.
pub struct ModificationQueuePool<C> {
    slots: Vec<Option<Vec<C>>>,
}

/// A queue taken from a [`ModificationQueuePool`], remembering its slot.
pub struct ModificationQueue<C> {
    inner: Option<Vec<C>>,
    index: usize,
}

impl<C> ModificationQueuePool<C> {
    /// The queues of the slots: `Some` with the closures a slot holds, `None` for a slot
    /// whose queue is out.
    pub closed spec fn view_slots(&self) -> Seq<Option<Seq<C>>> {
        slots_view(self.slots@)
    }

    /// A pool of eight empty queues.
    pub fn new() -> (r: Self)
        ensures
            r.view_slots() == fresh_slots::<C>(8),
    {
        Self::with_capacity(8)
    }

    /// A pool of `capacity` empty queues.
    pub fn with_capacity(capacity: usize) -> (r: Self)
        ensures
            r.view_slots() == fresh_slots::<C>(capacity as nat),
    {
        ModificationQueuePool { slots: fresh_slot_vec(capacity) }
    }

    /// Takes the queue of the first slot that holds one, or a new empty queue in a new
    /// slot when every queue is out.
    pub fn get(&mut self) -> (r: ModificationQueue<C>)
        requires
            old(self).view_slots().len() < usize::MAX,
        ensures
            r.index() == take_slot(old(self).view_slots()).0,
            r.inner() == Some(taken_queue(old(self).view_slots())),
            final(self).view_slots() == take_slot(old(self).view_slots()).1,
    {
        let (index, inner) = take_from_slots(&mut self.slots);
        ModificationQueue { inner: Some(inner), index }
    }

    /// Gives a queue back to the slot it came from; whatever it still holds is discarded.
    pub fn return_queue(&mut self, queue: ModificationQueue<C>)
        requires
            queue.index() < old(self).view_slots().len(),
            queue.inner() is Some,
        ensures
            final(self).view_slots() == old(self).view_slots().update(queue.index() as int, Some(Seq::<C>::empty())),
    {
        let ModificationQueue { inner: _, index } = queue;
        put_into_slot(&mut self.slots, index, Vec::new());
    }
}

impl<C> ModificationQueue<C> {
    /// The closures of the queue; `None` only for a queue whose contents were taken.
    pub closed spec fn inner(&self) -> Option<Seq<C>> {
        match self.inner {
            Some(v) => Some(v@),
            None => None,
        }
    }

    /// The slot the queue came from.
    pub closed spec fn index(&self) -> nat {
        self.index as nat
    }

    /// Moves every closure of `other` to the end of this queue, in order.
    pub fn absorb(&mut self, other: &mut ModificationQueue<C>)
        requires
            old(self).inner() is Some,
            old(other).inner() is Some,
        ensures
            final(self).inner() == Some(old(self).inner()->0 + old(other).inner()->0),
            final(other).inner() == Some(Seq::<C>::empty()),
            final(self).index() == old(self).index(),
            final(other).index() == old(other).index(),
    {
        let mut mine: Option<Vec<C>> = None;
        std::mem::swap(&mut mine, &mut self.inner);
        let mut theirs: Option<Vec<C>> = None;
        std::mem::swap(&mut theirs, &mut other.inner);
        match (mine, theirs) {
            (Some(mut a), Some(mut b)) => {
                a.append(&mut b);
                self.inner = Some(a);
                other.inner = Some(b);
            },
            (m, t) => {
                self.inner = m;
                other.inner = t;
            },
        }
    }

    /// Appends a closure to the queue.
    pub fn push(&mut self, closure: C)
        requires
            old(self).inner() is Some,
        ensures
            final(self).inner() == Some(old(self).inner()->0.push(closure)),
            final(self).index() == old(self).index(),
    {
        let mut taken: Option<Vec<C>> = None;
        std::mem::swap(&mut taken, &mut self.inner);
        match taken {
            Some(mut q) => {
                q.push(closure);
                self.inner = Some(q);
            },
            None => {},
        }
    }

    /// Appends the closures of `closures`, in order.
    pub fn extend(&mut self, closures: Vec<C>)
        requires
            old(self).inner() is Some,
        ensures
            final(self).inner() == Some(old(self).inner()->0 + closures@),
            final(self).index() == old(self).index(),
    {
        let mut more = closures;
        let mut taken: Option<Vec<C>> = None;
        std::mem::swap(&mut taken, &mut self.inner);
        match taken {
            Some(mut q) => {
                q.append(&mut more);
                self.inner = Some(q);
            },
            None => {},
        }
    }

    /// Removes the closures at positions `start..end` and hands them out in order.
    pub fn drain(&mut self, start: usize, end: usize) -> (r: Vec<C>)
        requires
            old(self).inner() is Some,
            start <= end <= old(self).inner()->0.len(),
        ensures
            r@ == old(self).inner()->0.subrange(start as int, end as int),
            final(self).inner() == Some(
                old(self).inner()->0.subrange(0, start as int) + old(self).inner()->0.subrange(end as int, old(self).inner()->0.len() as int),
            ),
            final(self).index() == old(self).index(),
    {
        let mut taken: Option<Vec<C>> = None;
        std::mem::swap(&mut taken, &mut self.inner);
        let mut out: Vec<C> = Vec::new();
        match taken {
            Some(mut q) => {
                let ghost q0 = q@;
                let mut k: usize = start;
                while k < end
                    invariant
                        start <= k <= end <= q0.len(),
                        out@ == q0.subrange(start as int, k as int),
                        q@ == q0.subrange(0, start as int) + q0.subrange(k as int, q0.len() as int),
                    decreases end - k,
                {
                    proof {
                        assert(q@[start as int] == q0[k as int]);
                    }
                    let item = q.remove(start);
                    out.push(item);
                    proof {
                        assert(out@ =~= q0.subrange(start as int, k + 1));
                        assert(q@ =~= q0.subrange(0, start as int) + q0.subrange(k + 1, q0.len() as int));
                    }
                    k = k + 1;
                }
                self.inner = Some(q);
            },
            None => {},
        }
        out
    }
}

} // verus!
