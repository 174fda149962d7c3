//! Counting dependency edges: the arithmetic behind running each system only after the
//! systems it depends on have finished.
use vstd::prelude::*;
use crate::system_id::SystemId;

verus! {

/// How many times `x` occurs in `s`.
pub open spec fn count_in(s: Seq<SystemId>, x: SystemId) -> nat
    decreases s.len(),
{
    if s.len() == 0 {
        0
    } else {
        count_in(s.drop_last(), x) + if s.last() == x { 1nat } else { 0nat }
    }
}

/// The number of dependency edges into `x` from systems `d < upto` that are not in `done`;
/// `dependants[d]` lists the systems that depend on system `d`, once per declared dependency.
pub open spec fn pending(dependants: Seq<Seq<SystemId>>, x: SystemId, done: Set<int>, upto: int) -> nat
    decreases upto,
{
    if upto <= 0 {
        0
    } else {
        pending(dependants, x, done, upto - 1) + if done.contains(upto - 1) {
            0nat
        } else {
            count_in(dependants[upto - 1], x)
        }
    }
}

/// Every dependant listed for system `d` has a larger identifier than `d`: the graph is
/// acyclic, as a system can only depend on systems inserted before it.
pub open spec fn edges_ascend(dependants: Seq<Seq<SystemId>>) -> bool {
    forall|d: int, k: int|
        0 <= d < dependants.len() && 0 <= k < dependants[d].len() ==> #[trigger] dependants[d][k].0
            > d && dependants[d][k].0 < dependants.len()
}

pub proof fn lemma_count_in_zero(s: Seq<SystemId>, x: SystemId)
    ensures
        count_in(s, x) == 0 <==> !s.contains(x),
    decreases s.len(),
{
    if s.len() > 0 {
        lemma_count_in_zero(s.drop_last(), x);
        if s.drop_last().contains(x) {
            let j = choose|j: int| 0 <= j < s.drop_last().len() && s.drop_last()[j] == x;
            assert(s[j] == x);
        }
        if s.contains(x) && s.last() != x {
            let j = choose|j: int| 0 <= j < s.len() && s[j] == x;
            assert(j != s.len() - 1);
            assert(s.drop_last()[j] == x);
        }
    }
}

pub proof fn lemma_count_in_append(a: Seq<SystemId>, b: Seq<SystemId>, x: SystemId)
    ensures
        count_in(a + b, x) == count_in(a, x) + count_in(b, x),
    decreases b.len(),
{
    if b.len() == 0 {
        assert(a + b == a);
    } else {
        lemma_count_in_append(a, b.drop_last(), x);
        assert((a + b).drop_last() == a + b.drop_last());
        assert((a + b).last() == b.last());
    }
}

pub proof fn lemma_count_in_push(a: Seq<SystemId>, y: SystemId, x: SystemId)
    ensures
        count_in(a.push(y), x) == count_in(a, x) + if y == x { 1nat } else { 0nat },
{
    assert(a.push(y).drop_last() == a);
}

/// Marking one more system `j` as done removes exactly its edges into `x`.
pub proof fn lemma_pending_mark_done(
    dependants: Seq<Seq<SystemId>>,
    x: SystemId,
    done: Set<int>,
    upto: int,
    j: int,
)
    requires
        0 <= j < upto,
        !done.contains(j),
    ensures
        pending(dependants, x, done, upto) == pending(dependants, x, done.insert(j), upto)
            + count_in(dependants[j], x),
    decreases upto,
{
    if upto - 1 == j {
        lemma_pending_same_below(dependants, x, done, done.insert(j), upto - 1);
    } else {
        lemma_pending_mark_done(dependants, x, done, upto - 1, j);
    }
}

/// `pending` only looks at systems below `upto`.
pub proof fn lemma_pending_same_below(
    dependants: Seq<Seq<SystemId>>,
    x: SystemId,
    a: Set<int>,
    b: Set<int>,
    upto: int,
)
    requires
        forall|d: int| 0 <= d < upto ==> (a.contains(d) <==> b.contains(d)),
    ensures
        pending(dependants, x, a, upto) == pending(dependants, x, b, upto),
    decreases upto,
{
    if upto > 0 {
        lemma_pending_same_below(dependants, x, a, b, upto - 1);
    }
}

/// No pending edge into `x` means no system outside `done` lists `x` as a dependant.
pub proof fn lemma_pending_zero(dependants: Seq<Seq<SystemId>>, x: SystemId, done: Set<int>, upto: int)
    ensures
        pending(dependants, x, done, upto) == 0 <==> (forall|d: int|
            0 <= d < upto && !done.contains(d) ==> !#[trigger] dependants[d].contains(x)),
    decreases upto,
{
    if upto > 0 {
        lemma_pending_zero(dependants, x, done, upto - 1);
        lemma_count_in_zero(dependants[upto - 1], x);
    }
}

/// When every edge into `x` starts at a system in `done`, nothing is pending; with
/// ascending edges this holds as soon as every system below `x` is done.
pub proof fn lemma_pending_zero_when_earlier_done(
    dependants: Seq<Seq<SystemId>>,
    x: SystemId,
    done: Set<int>,
)
    requires
        edges_ascend(dependants),
        forall|d: int| 0 <= d < x.0 ==> done.contains(d),
    ensures
        pending(dependants, x, done, dependants.len() as int) == 0,
{
    lemma_pending_zero(dependants, x, done, dependants.len() as int);
    assert forall|d: int|
        0 <= d < dependants.len() && !done.contains(d) implies !#[trigger] dependants[d].contains(
        x,
    ) by {
        if dependants[d].contains(x) {
            let k = choose|k: int| 0 <= k < dependants[d].len() && dependants[d][k] == x;
            assert(dependants[d][k].0 > d);
        }
    }
}

} // verus!
