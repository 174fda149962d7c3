//! The sequential executor: every system runs, one after another, in the order of its id.
use vstd::prelude::*;
use crate::system_id::SystemId;

verus! {

/// Whether the ids increase strictly along `s`.
pub open spec fn strictly_ascending(s: Seq<SystemId>) -> bool {
    forall|i: int, j: int| 0 <= i < j < s.len() ==> (#[trigger] s[i]).0 < (#[trigger] s[j]).0
}

/// The order in which a sequential executor runs its systems.
pub struct ExecutorSequential {
    order: Vec<SystemId>,
}

impl ExecutorSequential {
    /// The ids of the systems in the order they run.
    pub closed spec fn order_view(&self) -> Seq<SystemId> {
        self.order@
    }

    /// Orders the systems given in any order, each once, by id.
    pub fn build(ids: Vec<SystemId>) -> (r: Self)
        requires
            ids@.no_duplicates(),
        ensures
            strictly_ascending(r.order_view()),
            r.order_view().to_set() == ids@.to_set(),
            r.order_view().len() == ids@.len(),
    {
        let mut order: Vec<SystemId> = Vec::new();
        let mut k: usize = 0;
        while k < ids.len()
            invariant
                0 <= k <= ids@.len(),
                ids@.no_duplicates(),
                strictly_ascending(order@),
                order@.len() == k,
                forall|x: SystemId| #[trigger] order@.contains(x) <==> ids@.take(k as int).contains(x),
            decreases ids@.len() - k,
        {
            let id = ids[k];
            let mut p: usize = 0;
            while p < order.len() && order[p].0 < id.0
                invariant
                    0 <= p <= order@.len(),
                    forall|j: int| 0 <= j < p ==> (#[trigger] order@[j]).0 < id.0,
                decreases order@.len() - p,
            {
                p = p + 1;
            }
            proof {
                assert(!ids@.take(k as int).contains(id)) by {
                    if ids@.take(k as int).contains(id) {
                        let j = choose|j: int| 0 <= j < k && ids@.take(k as int)[j] == id;
                        assert(ids@[j] == ids@[k as int]);
                    }
                }
                assert(!order@.contains(id));
                if p < order@.len() {
                    assert(order@[p as int] != id);
                    assert(order@[p as int].0 != id.0);
                }
            }
            let ghost before = order@;
            order.insert(p, id);
            proof {
                assert(order@ == before.insert(p as int, id));
                before.insert_ensures(p as int, id);
                assert forall|i: int, j: int| 0 <= i < j < order@.len() implies (#[trigger] order@[i]).0 < (#[trigger] order@[j]).0 by {
                    if j < p {
                        assert(order@[i] == before[i] && order@[j] == before[j]);
                    } else if j == p {
                        assert(order@[i] == before[i]);
                    } else if i == p {
                        assert(order@[j] == before[j - 1]);
                        if p < before.len() {
                            assert(before[p as int].0 >= id.0);
                            if j - 1 > p {
                                assert(before[p as int].0 < before[j - 1].0);
                            }
                        }
                    } else if i < p {
                        assert(order@[i] == before[i] && order@[j] == before[j - 1]);
                    } else {
                        assert(order@[i] == before[i - 1] && order@[j] == before[j - 1]);
                    }
                }
                assert(ids@.take(k + 1) == ids@.take(k as int).push(id));
                assert forall|x: SystemId| #[trigger] order@.contains(x) <==> ids@.take(k + 1).contains(x) by {
                    let t = ids@.take(k as int);
                    if order@.contains(x) {
                        let j = choose|j: int| 0 <= j < order@.len() && order@[j] == x;
                        if j < p {
                            assert(before[j] == x);
                            assert(before.contains(x));
                            let jj = choose|jj: int| 0 <= jj < t.len() && t[jj] == x;
                            assert(ids@.take(k + 1)[jj] == x);
                        } else if j == p {
                            assert(ids@.take(k + 1)[k as int] == x);
                        } else {
                            assert(before[j - 1] == x);
                            assert(before.contains(x));
                            let jj = choose|jj: int| 0 <= jj < t.len() && t[jj] == x;
                            assert(ids@.take(k + 1)[jj] == x);
                        }
                    }
                    let t1 = ids@.take(k + 1);
                    if t1.contains(x) {
                        let jj = choose|jj: int| 0 <= jj < t1.len() && t1[jj] == x;
                        if jj < k {
                            assert(t[jj] == x);
                            assert(t.contains(x));
                            assert(before.contains(x));
                            let j = choose|j: int| 0 <= j < before.len() && before[j] == x;
                            if j < p {
                                assert(order@[j] == x);
                            } else {
                                assert(order@[j + 1] == x);
                            }
                        } else {
                            assert(order@[p as int] == x);
                        }
                    }
                }
            }
            k = k + 1;
        }
        proof {
            assert(ids@.take(k as int) == ids@);
            assert(order@.to_set() =~= ids@.to_set());
        }
        ExecutorSequential { order }
    }

    /// Number of systems.
    pub fn len(&self) -> (r: usize)
        ensures
            r == self.order_view().len(),
    {
        self.order.len()
    }

    /// The id of the `i`-th system to run.
    pub fn system_at(&self, i: usize) -> (r: SystemId)
        requires
            i < self.order_view().len(),
        ensures
            r == self.order_view()[i as int],
    {
        self.order[i]
    }

    /// A sequential executor has no archetype data to refresh.
    pub fn force_archetype_recalculation(&mut self)
        ensures
            final(self).order_view() == old(self).order_view(),
    {
    }
}

} // verus!
