//! Runtime borrow tracking of a single resource.
use vstd::prelude::*;

verus! {

/// The most significant bit of a `usize`; the whole state while the resource is
/// borrowed uniquely, and a bound that the shared count stays below.
pub const UNIQUE_BIT: usize = usize::MAX / 2 + 1;

/// Abstract state of an [`AtomicBorrow`]: how many shared borrows are held,
/// and whether the unique borrow is held.
pub ghost struct BorrowState {
    pub shared: nat,
    pub unique: bool,
}

/// The number of shared borrows that can be held at the same time.
pub open spec fn shared_limit() -> nat {
    (UNIQUE_BIT - 1) as nat
}

/// What a shared borrow attempt does: the new state, and whether it succeeded.
pub open spec fn borrow_step(s: BorrowState) -> (BorrowState, bool) {
    if !s.unique && s.shared < shared_limit() {
        (BorrowState { shared: s.shared + 1, unique: false }, true)
    } else {
        (s, false)
    }
}

/// What a unique borrow attempt does: the new state, and whether it succeeded.
pub open spec fn borrow_mut_step(s: BorrowState) -> (BorrowState, bool) {
    if !s.unique && s.shared == 0 {
        (BorrowState { shared: 0, unique: true }, true)
    } else {
        (s, false)
    }
}

/// Releasing one shared borrow.
pub open spec fn release_step(s: BorrowState) -> BorrowState {
    BorrowState { shared: (s.shared - 1) as nat, unique: s.unique }
}

/// Releasing the unique borrow leaves the tracker free.
pub open spec fn release_mut_step(s: BorrowState) -> BorrowState {
    BorrowState { shared: 0, unique: false }
}

/// The state of a tracker that nothing borrows.
pub open spec fn free_state() -> BorrowState {
    BorrowState { shared: 0, unique: false }
}

/// Runtime borrow tracker: any number of shared borrows, or one unique borrow.
pub struct AtomicBorrow {
    state: usize,
}

impl View for AtomicBorrow {
    type V = BorrowState;

    closed spec fn view(&self) -> BorrowState {
        if self.state == UNIQUE_BIT {
            BorrowState { shared: 0, unique: true }
        } else {
            BorrowState { shared: self.state as nat, unique: false }
        }
    }
}

impl AtomicBorrow {
    /// Every reachable state holds at most one unique borrow and stays below it otherwise.
    #[verifier::type_invariant]
    closed spec fn inv(self) -> bool {
        self.state <= UNIQUE_BIT
    }

    /// A tracker that nothing borrows.
    pub fn new() -> (r: Self)
        ensures
            r@ == free_state(),
    {
        AtomicBorrow { state: 0 }
    }

    /// Whether nothing borrows the tracked resource.
    pub fn is_free(&self) -> (r: bool)
        ensures
            r == (self@ == free_state()),
    {
        proof { use_type_invariant(self); }
        self.state == 0
    }

    /// Whether a shared borrow would be granted now.
    pub(crate) fn grants_shared(&self) -> (r: bool)
        ensures
            r == borrow_step(self@).1,
    {
        proof { use_type_invariant(self); }
        self.state + 1 < UNIQUE_BIT
    }

    /// Whether the unique borrow would be granted now.
    pub(crate) fn grants_unique(&self) -> (r: bool)
        ensures
            r == borrow_mut_step(self@).1,
    {
        self.state == 0
    }

    /// Tries to take a shared borrow; fails while the unique borrow is held
    /// (or when the shared count is at its limit).
    pub fn borrow(&mut self) -> (r: bool)
        ensures
            (final(self)@, r) == borrow_step(old(self)@),
    {
        proof { use_type_invariant(&*self); }
        let value = self.state + 1;
        if value >= UNIQUE_BIT {
            false
        } else {
            self.state = value;
            true
        }
    }

    /// Tries to take the unique borrow; succeeds only when nothing borrows the resource.
    pub fn borrow_mut(&mut self) -> (r: bool)
        ensures
            (final(self)@, r) == borrow_mut_step(old(self)@),
    {
        proof { use_type_invariant(&*self); }
        if self.state == 0 {
            self.state = UNIQUE_BIT;
            true
        } else {
            false
        }
    }

    /// Releases one shared borrow.
    pub fn release(&mut self)
        requires
            old(self)@.shared > 0,
            !old(self)@.unique,
        ensures
            final(self)@ == release_step(old(self)@),
    {
        proof { use_type_invariant(&*self); }
        self.state = self.state - 1;
    }

    /// Releases the unique borrow.
    pub fn release_mut(&mut self)
        ensures
            final(self)@ == release_mut_step(old(self)@),
    {
        self.state = 0;
    }
}

/// A shared borrow followed by its release gives back the state before it.
pub proof fn lemma_release_undoes_borrow(s: BorrowState)
    requires
        borrow_step(s).1,
    ensures
        release_step(borrow_step(s).0) == s,
{
}

/// A unique borrow followed by its release leaves the tracker free.
pub proof fn lemma_release_mut_undoes_borrow_mut(s: BorrowState)
    requires
        borrow_mut_step(s).1,
    ensures
        release_mut_step(borrow_mut_step(s).0) == s,
{
}

/// Shared and unique borrows exclude each other: while any shared borrow is held the
/// unique borrow fails, and while the unique borrow is held every shared borrow fails.
pub proof fn lemma_borrows_exclusive(s: BorrowState)
    ensures
        s.shared > 0 ==> !borrow_mut_step(s).1 && borrow_mut_step(s).0 == s,
        s.unique ==> !borrow_step(s).1 && borrow_step(s).0 == s,
        s.unique ==> !borrow_mut_step(s).1,
{
}

/// A free tracker grants the unique borrow, and grants a shared borrow.
pub proof fn lemma_free_grants(s: BorrowState)
    requires
        s == free_state(),
    ensures
        borrow_mut_step(s).1,
        borrow_step(s).1,
{
}

/// A shared borrow is granted exactly when the unique borrow is not held and one more
/// shared borrow keeps the count below the unique bit, however many are held already;
/// granted, it adds one shared borrow, and refused, it changes nothing.
pub proof fn lemma_borrow_granted_iff(s: BorrowState)
    ensures
        borrow_step(s).1 <==> (!s.unique && s.shared + 1 < UNIQUE_BIT),
        borrow_step(s).1 ==> borrow_step(s).0 == (BorrowState { shared: s.shared + 1, unique: false }),
        !borrow_step(s).1 ==> borrow_step(s).0 == s,
{
}

/// The unique borrow is granted exactly when nothing is borrowed; granted, it is held
/// alone, and refused, it changes nothing.
pub proof fn lemma_borrow_mut_granted_iff(s: BorrowState)
    ensures
        borrow_mut_step(s).1 <==> (!s.unique && s.shared == 0),
        borrow_mut_step(s).1 ==> borrow_mut_step(s).0 == (BorrowState { shared: 0, unique: true }),
        !borrow_mut_step(s).1 ==> borrow_mut_step(s).0 == s,
{
}

/// Releasing a shared borrow takes exactly one off the shared count and leaves the unique
/// flag; releasing the unique borrow leaves nothing borrowed.
pub proof fn lemma_release_counts(s: BorrowState)
    requires
        s.shared > 0,
    ensures
        release_step(s).shared + 1 == s.shared,
        release_step(s).unique == s.unique,
        release_mut_step(s).shared == 0,
        !release_mut_step(s).unique,
{
}

/// An operation on a tracker.
pub ghost enum BorrowOp {
    Borrow,
    BorrowMut,
    Release,
    ReleaseMut,
}

/// The tracker's state, the number of outstanding successful shared borrows and whether a
/// successful unique borrow is outstanding, after `ops` run from `s` with `shared_out` and
/// `unique_out` outstanding; `None` when a release has no outstanding borrow of its kind.
pub open spec fn replay(s: BorrowState, shared_out: nat, unique_out: bool, ops: Seq<BorrowOp>) -> Option<(BorrowState, nat, bool)>
    decreases ops.len(),
{
    if ops.len() == 0 {
        Some((s, shared_out, unique_out))
    } else {
        let rest = ops.drop_first();
        match ops[0] {
            BorrowOp::Borrow => {
                let (t, ok) = borrow_step(s);
                replay(t, if ok { shared_out + 1 } else { shared_out }, unique_out, rest)
            },
            BorrowOp::BorrowMut => {
                let (t, ok) = borrow_mut_step(s);
                replay(t, shared_out, ok || unique_out, rest)
            },
            BorrowOp::Release => if shared_out > 0 {
                replay(release_step(s), (shared_out - 1) as nat, unique_out, rest)
            } else {
                None
            },
            BorrowOp::ReleaseMut => if unique_out {
                replay(release_mut_step(s), shared_out, false, rest)
            } else {
                None
            },
        }
    }
}

/// The tracker counts exactly what is outstanding, and never both kinds at once.
pub open spec fn tracks(s: BorrowState, shared_out: nat, unique_out: bool) -> bool {
    &&& s.shared == shared_out
    &&& s.unique == unique_out
    &&& !(unique_out && shared_out > 0)
}

/// Along any sequence of borrows and releases in which each release ends an outstanding
/// successful borrow of its kind, a tracker that counted what was outstanding keeps doing so.
pub proof fn lemma_replay_tracks(s: BorrowState, shared_out: nat, unique_out: bool, ops: Seq<BorrowOp>)
    requires
        tracks(s, shared_out, unique_out),
    ensures
        replay(s, shared_out, unique_out, ops) matches Some((t, sh, un)) ==> tracks(t, sh, un),
    decreases ops.len(),
{
    if ops.len() > 0 {
        let rest = ops.drop_first();
        match ops[0] {
            BorrowOp::Borrow => {
                let (t, ok) = borrow_step(s);
                lemma_replay_tracks(t, if ok { shared_out + 1 } else { shared_out }, unique_out, rest);
            },
            BorrowOp::BorrowMut => {
                let (t, ok) = borrow_mut_step(s);
                lemma_replay_tracks(t, shared_out, ok || unique_out, rest);
            },
            BorrowOp::Release => if shared_out > 0 {
                lemma_replay_tracks(release_step(s), (shared_out - 1) as nat, unique_out, rest);
            },
            BorrowOp::ReleaseMut => if unique_out {
                lemma_replay_tracks(release_mut_step(s), shared_out, false, rest);
            },
        }
    }
}

/// From a new tracker, along any sequence of borrows and releases in which each release
/// ends an outstanding successful borrow of its kind: the unique flag is set exactly while
/// a successful unique borrow is outstanding, and then no shared borrow is; the shared count
/// is the number of outstanding successful shared borrows; and the tracker is free exactly
/// when nothing is outstanding.
pub proof fn lemma_tracker_counts_outstanding(ops: Seq<BorrowOp>)
    ensures
        replay(free_state(), 0, false, ops) matches Some((t, sh, un)) ==> {
            &&& t.unique == un
            &&& t.shared == sh
            &&& !(un && sh > 0)
            &&& (t == free_state() <==> (sh == 0 && !un))
        },
{
    lemma_replay_tracks(free_state(), 0, false, ops);
}

} // verus!
