//! Taking and giving back, through their borrow trackers, the resources a system borrows.
//!
//! An executor keeps one tracker per resource of its resource tuple. Before a system runs,
//! every resource it reads is borrowed shared and every resource it writes is borrowed
//! uniquely; afterwards the borrows are released. A system that both reads and writes one
//! resource conflicts with itself and is never given its resources.
use vstd::prelude::*;
use crate::access_set::{BorrowBits, BorrowSet};
use crate::atomic_borrow::{
    AtomicBorrow, BorrowState, UNIQUE_BIT, borrow_step, borrow_mut_step, free_state, release_step, release_mut_step,
};
use crate::bit_set::{bitset_contains, bitset_is_disjoint};

verus! {

/// The states of the trackers.
pub open spec fn tracker_states(trackers: Seq<AtomicBorrow>) -> Seq<BorrowState> {
    trackers.map_values(|b: AtomicBorrow| b@)
}

/// Whether every resource that `b` names has a tracker.
pub open spec fn within_trackers(b: BorrowBits, count: nat) -> bool {
    forall|i: usize| (b.immutable.contains(i) || b.mutable.contains(i)) ==> i < count
}

/// Whether a system borrowing `b` can be given its resources: it reads no resource it also
/// writes, every tracker of a read resource grants a shared borrow, and every tracker of a
/// written resource grants the unique borrow.
pub open spec fn fetch_allowed(states: Seq<BorrowState>, b: BorrowBits) -> bool {
    &&& b.immutable.disjoint(b.mutable)
    &&& forall|i: usize| #[trigger] b.immutable.contains(i) ==> borrow_step(states[i as int]).1
    &&& forall|i: usize| #[trigger] b.mutable.contains(i) ==> borrow_mut_step(states[i as int]).1
}

/// The tracker states after the resources of `b` are taken.
pub open spec fn fetched(states: Seq<BorrowState>, b: BorrowBits) -> Seq<BorrowState> {
    Seq::new(states.len(), |i: int| if b.immutable.contains(i as usize) {
        borrow_step(states[i]).0
    } else if b.mutable.contains(i as usize) {
        borrow_mut_step(states[i]).0
    } else {
        states[i]
    })
}

/// The tracker states after the resources of `b` are given back.
pub open spec fn released(states: Seq<BorrowState>, b: BorrowBits) -> Seq<BorrowState> {
    Seq::new(states.len(), |i: int| if b.immutable.contains(i as usize) {
        release_step(states[i])
    } else if b.mutable.contains(i as usize) {
        release_mut_step(states[i])
    } else {
        states[i]
    })
}

/// Takes, all at once, the borrows a system with resource borrows `borrows` needs: shared
/// for each resource it reads, unique for each it writes. Nothing is taken, and `false`
/// returned, when the system conflicts with itself or a tracker refuses.
pub fn fetch_resources(trackers: &mut Vec<AtomicBorrow>, borrows: &BorrowSet) -> (ok: bool)
    requires
        within_trackers(borrows@, old(trackers)@.len()),
    ensures
        ok == fetch_allowed(tracker_states(old(trackers)@), borrows@),
        ok ==> tracker_states(final(trackers)@) == fetched(tracker_states(old(trackers)@), borrows@),
        !ok ==> tracker_states(final(trackers)@) == tracker_states(old(trackers)@),
{
    let ghost s0 = tracker_states(trackers@);
    let ghost b = borrows@;
    if !bitset_is_disjoint(&borrows.immutable, &borrows.mutable) {
        return false;
    }
    let n = trackers.len();
    let mut i: usize = 0;
    while i < n
        invariant
            0 <= i <= n,
            n == trackers@.len(),
            s0 == tracker_states(trackers@),
            b == borrows@,
            forall|j: usize| j < i && #[trigger] b.immutable.contains(j) ==> borrow_step(s0[j as int]).1,
            forall|j: usize| j < i && #[trigger] b.mutable.contains(j) ==> borrow_mut_step(s0[j as int]).1,
        decreases n - i,
    {
        if bitset_contains(&borrows.immutable, i) && !trackers[i].grants_shared() {
            assert(s0[i as int] == trackers@[i as int]@);
            return false;
        }
        if bitset_contains(&borrows.mutable, i) && !trackers[i].grants_unique() {
            assert(s0[i as int] == trackers@[i as int]@);
            return false;
        }
        assert(s0[i as int] == trackers@[i as int]@);
        i = i + 1;
    }
    assert(fetch_allowed(s0, b));
    let mut k: usize = 0;
    while k < n
        invariant
            0 <= k <= n,
            n == trackers@.len(),
            b == borrows@,
            s0.len() == n,
            fetch_allowed(s0, b),
            forall|j: int| 0 <= j < k ==> #[trigger] trackers@[j]@ == fetched(s0, b)[j],
            forall|j: int| k <= j < n ==> #[trigger] trackers@[j]@ == s0[j],
        decreases n - k,
    {
        let ghost before = trackers@;
        if bitset_contains(&borrows.immutable, k) {
            let mut t = AtomicBorrow::new();
            trackers.set_and_swap(k, &mut t);
            t.borrow();
            trackers.set_and_swap(k, &mut t);
        } else if bitset_contains(&borrows.mutable, k) {
            let mut t = AtomicBorrow::new();
            trackers.set_and_swap(k, &mut t);
            t.borrow_mut();
            trackers.set_and_swap(k, &mut t);
        }
        proof {
            assert forall|j: int| 0 <= j < k + 1 implies #[trigger] trackers@[j]@ == fetched(s0, b)[j] by {
                if j < k {
                    assert(trackers@[j] == before[j]);
                }
            }
            assert forall|j: int| k + 1 <= j < n implies #[trigger] trackers@[j]@ == s0[j] by {
                assert(trackers@[j] == before[j]);
            }
        }
        k = k + 1;
    }
    proof {
        assert(tracker_states(trackers@) =~= fetched(s0, b));
    }
    true
}

/// Gives back the borrows that [`fetch_resources`] took for a system with resource borrows
/// `borrows`.
pub fn release_resources(trackers: &mut Vec<AtomicBorrow>, borrows: &BorrowSet)
    requires
        within_trackers(borrows@, old(trackers)@.len()),
        borrows@.immutable.disjoint(borrows@.mutable),
        forall|i: usize| #[trigger] borrows@.immutable.contains(i) ==> old(trackers)@[i as int]@.shared > 0
            && !old(trackers)@[i as int]@.unique,
    ensures
        tracker_states(final(trackers)@) == released(tracker_states(old(trackers)@), borrows@),
{
    let ghost s0 = tracker_states(trackers@);
    let ghost b = borrows@;
    let n = trackers.len();
    let mut k: usize = 0;
    while k < n
        invariant
            0 <= k <= n,
            n == trackers@.len(),
            b == borrows@,
            s0.len() == n,
            s0 == tracker_states(old(trackers)@),
            forall|i: usize| #[trigger] b.immutable.contains(i) ==> old(trackers)@[i as int]@.shared > 0
                && !old(trackers)@[i as int]@.unique,
            forall|j: int| 0 <= j < k ==> #[trigger] trackers@[j]@ == released(s0, b)[j],
            forall|j: int| k <= j < n ==> #[trigger] trackers@[j]@ == s0[j],
        decreases n - k,
    {
        let ghost before = trackers@;
        if bitset_contains(&borrows.immutable, k) {
            assert(s0[k as int] == old(trackers)@[k as int]@);
            assert(b.immutable.contains(k));
            assert(old(trackers)@[k as int]@.shared > 0 && !old(trackers)@[k as int]@.unique);
            let mut t = AtomicBorrow::new();
            trackers.set_and_swap(k, &mut t);
            assert(t@ == s0[k as int]);
            t.release();
            trackers.set_and_swap(k, &mut t);
        } else if bitset_contains(&borrows.mutable, k) {
            let mut t = AtomicBorrow::new();
            trackers.set_and_swap(k, &mut t);
            t.release_mut();
            trackers.set_and_swap(k, &mut t);
        }
        proof {
            assert forall|j: int| 0 <= j < k + 1 implies #[trigger] trackers@[j]@ == released(s0, b)[j] by {
                if j < k {
                    assert(trackers@[j] == before[j]);
                }
            }
            assert forall|j: int| k + 1 <= j < n implies #[trigger] trackers@[j]@ == s0[j] by {
                assert(trackers@[j] == before[j]);
            }
        }
        k = k + 1;
    }
    proof {
        assert(tracker_states(trackers@) =~= released(s0, b));
    }
}

/// A system is given its resources exactly when it reads no resource it also writes, no
/// resource it reads is held uniquely or has as many shared borrows as a tracker can count,
/// and no resource it writes is borrowed at all.
pub proof fn lemma_fetch_allowed_iff(states: Seq<BorrowState>, b: BorrowBits)
    ensures
        fetch_allowed(states, b) <==> {
            &&& forall|i: usize| !(b.immutable.contains(i) && #[trigger] b.mutable.contains(i))
            &&& forall|i: usize| #[trigger] b.immutable.contains(i) ==> !states[i as int].unique && states[i as int].shared + 1 < UNIQUE_BIT
            &&& forall|i: usize| #[trigger] b.mutable.contains(i) ==> !states[i as int].unique && states[i as int].shared == 0
        },
{
    if !b.immutable.disjoint(b.mutable) {
        let i = choose|i: usize| b.immutable.contains(i) && b.mutable.contains(i);
    }
}

/// Taking a system's resources adds one shared borrow to each resource it reads, holds each
/// resource it writes uniquely, and leaves every other tracker as it was.
pub proof fn lemma_fetched_states(states: Seq<BorrowState>, b: BorrowBits)
    requires
        fetch_allowed(states, b),
        within_trackers(b, states.len()),
        states.len() <= usize::MAX,
    ensures
        fetched(states, b).len() == states.len(),
        forall|i: usize| #[trigger] b.immutable.contains(i)
            ==> fetched(states, b)[i as int] == (BorrowState { shared: states[i as int].shared + 1, unique: false }),
        forall|i: usize| #[trigger] b.mutable.contains(i)
            ==> fetched(states, b)[i as int] == (BorrowState { shared: 0, unique: true }),
        forall|i: int| 0 <= i < states.len() && !b.immutable.contains(i as usize) && !b.mutable.contains(i as usize)
            ==> #[trigger] fetched(states, b)[i] == states[i],
{
}

/// Giving back what was taken restores the trackers.
pub proof fn lemma_release_undoes_fetch(states: Seq<BorrowState>, b: BorrowBits)
    requires
        fetch_allowed(states, b),
        within_trackers(b, states.len()),
        states.len() <= usize::MAX,
    ensures
        released(fetched(states, b), b) == states,
{
    let f = fetched(states, b);
    assert forall|i: int| 0 <= i < states.len() implies #[trigger] released(f, b)[i] == states[i] by {
        let u = i as usize;
        if b.immutable.contains(u) {
            assert(borrow_step(states[i]).1);
        } else if b.mutable.contains(u) {
            assert(borrow_mut_step(states[i]).1);
        }
    }
    assert(released(f, b) =~= states);
}

/// A system that reads and writes one resource never gets its resources.
pub proof fn lemma_self_conflict_refused(states: Seq<BorrowState>, b: BorrowBits, i: usize)
    requires
        b.immutable.contains(i),
        b.mutable.contains(i),
    ensures
        !fetch_allowed(states, b),
{
}

/// How many of the systems holding borrows `held` read resource `i`.
pub open spec fn readers(held: Seq<BorrowBits>, i: usize) -> nat
    decreases held.len(),
{
    if held.len() == 0 {
        0
    } else {
        readers(held.drop_last(), i) + if held.last().immutable.contains(i) { 1nat } else { 0nat }
    }
}

/// How many of the systems holding borrows `held` write resource `i`.
pub open spec fn writers(held: Seq<BorrowBits>, i: usize) -> nat
    decreases held.len(),
{
    if held.len() == 0 {
        0
    } else {
        writers(held.drop_last(), i) + if held.last().mutable.contains(i) { 1nat } else { 0nat }
    }
}

/// The trackers record exactly the borrows that the systems `held` hold: each tracker counts
/// the readers of its resource and is unique exactly while one system writes it, and then
/// nothing else holds it.
pub open spec fn holds(states: Seq<BorrowState>, held: Seq<BorrowBits>) -> bool {
    forall|i: int| 0 <= i < states.len() ==> {
        &&& (#[trigger] states[i]).shared == readers(held, i as usize)
        &&& states[i].unique == (writers(held, i as usize) == 1)
        &&& writers(held, i as usize) <= 1
        &&& writers(held, i as usize) == 1 ==> readers(held, i as usize) == 0
    }
}

/// Removing the `j`-th holder removes its borrows from the counts.
pub proof fn lemma_counts_remove(held: Seq<BorrowBits>, j: int, i: usize)
    requires
        0 <= j < held.len(),
    ensures
        readers(held.remove(j), i) + (if held[j].immutable.contains(i) { 1nat } else { 0nat }) == readers(held, i),
        writers(held.remove(j), i) + (if held[j].mutable.contains(i) { 1nat } else { 0nat }) == writers(held, i),
    decreases held.len(),
{
    if j == held.len() - 1 {
        assert(held.remove(j) =~= held.drop_last());
    } else {
        lemma_counts_remove(held.drop_last(), j, i);
        assert(held.remove(j).drop_last() =~= held.drop_last().remove(j));
        assert(held.remove(j).last() == held.last());
        assert(held.drop_last()[j] == held[j]);
    }
}

/// Taking the borrows of one more system keeps the trackers recording exactly what is held.
pub proof fn lemma_fetch_holds(states: Seq<BorrowState>, held: Seq<BorrowBits>, b: BorrowBits)
    requires
        holds(states, held),
        fetch_allowed(states, b),
        states.len() <= usize::MAX,
    ensures
        holds(fetched(states, b), held.push(b)),
{
    let f = fetched(states, b);
    let h = held.push(b);
    assert(h.drop_last() =~= held);
    assert forall|i: int| 0 <= i < f.len() implies {
        &&& (#[trigger] f[i]).shared == readers(h, i as usize)
        &&& f[i].unique == (writers(h, i as usize) == 1)
        &&& writers(h, i as usize) <= 1
        &&& writers(h, i as usize) == 1 ==> readers(h, i as usize) == 0
    } by {
        let u = i as usize;
        assert(states[i].shared == readers(held, u));
        if b.immutable.contains(u) {
            assert(!b.mutable.contains(u));
            assert(borrow_step(states[i]).1);
        } else if b.mutable.contains(u) {
            assert(borrow_mut_step(states[i]).1);
        }
    }
}

/// Giving back the borrows of the `j`-th holder keeps the trackers recording exactly what
/// the others hold; and [`release_resources`] may be called for it.
pub proof fn lemma_release_holds(states: Seq<BorrowState>, held: Seq<BorrowBits>, j: int)
    requires
        holds(states, held),
        0 <= j < held.len(),
        held[j].immutable.disjoint(held[j].mutable),
        states.len() <= usize::MAX,
    ensures
        forall|i: usize| i < states.len() && #[trigger] held[j].immutable.contains(i) ==> states[i as int].shared > 0
            && !states[i as int].unique,
        holds(released(states, held[j]), held.remove(j)),
{
    let b = held[j];
    let r = released(states, b);
    let h = held.remove(j);
    assert forall|i: usize| i < states.len() && #[trigger] b.immutable.contains(i) implies states[i as int].shared > 0
        && !states[i as int].unique by {
        lemma_counts_remove(held, j, i);
        assert(states[i as int].shared == readers(held, i));
    }
    assert forall|i: int| 0 <= i < r.len() implies {
        &&& (#[trigger] r[i]).shared == readers(h, i as usize)
        &&& r[i].unique == (writers(h, i as usize) == 1)
        &&& writers(h, i as usize) <= 1
        &&& writers(h, i as usize) == 1 ==> readers(h, i as usize) == 0
    } by {
        let u = i as usize;
        lemma_counts_remove(held, j, u);
        assert(states[i].shared == readers(held, u));
    }
}

/// When no system holds borrows, every tracker is free; a run that gives back everything it
/// took ends with free trackers.
pub proof fn lemma_nothing_held_all_free(states: Seq<BorrowState>)
    requires
        holds(states, Seq::empty()),
    ensures
        forall|i: int| 0 <= i < states.len() ==> #[trigger] states[i] == free_state(),
{
    assert forall|i: int| 0 <= i < states.len() implies #[trigger] states[i] == free_state() by {
        assert(states[i].shared == readers(Seq::<BorrowBits>::empty(), i as usize));
    }
}

/// Free trackers record that nothing is held.
pub proof fn lemma_free_holds_nothing(states: Seq<BorrowState>)
    requires
        forall|i: int| 0 <= i < states.len() ==> #[trigger] states[i] == free_state(),
    ensures
        holds(states, Seq::empty()),
{
    assert forall|i: int| 0 <= i < states.len() implies {
        &&& (#[trigger] states[i]).shared == readers(Seq::<BorrowBits>::empty(), i as usize)
        &&& states[i].unique == (writers(Seq::<BorrowBits>::empty(), i as usize) == 1)
        &&& writers(Seq::<BorrowBits>::empty(), i as usize) <= 1
        &&& writers(Seq::<BorrowBits>::empty(), i as usize) == 1 ==> readers(Seq::<BorrowBits>::empty(), i as usize) == 0
    } by {
        assert(states[i] == free_state());
    }
}

} // verus!
