//! Ordering of queued systems: those with the most dependants come first, and systems with
//! equally many dependants keep the order in which they were queued.
use vstd::prelude::*;
use crate::system_id::{DependantsLength, SystemId};

verus! {

/// A queued system with its cached number of dependants.
pub type Queued = (SystemId, DependantsLength);

/// Where `key` goes in `sorted` (ordered by descending key): after every entry whose key is
/// at least `key`.
pub open spec fn insert_position(sorted: Seq<Queued>, key: usize) -> int
    decreases sorted.len(),
{
    if sorted.len() == 0 {
        0
    } else if sorted.last().1.0 >= key {
        sorted.len() as int
    } else {
        insert_position(sorted.drop_last(), key)
    }
}

/// `sorted` with `x` inserted at its place.
pub open spec fn insert_by_dependants(sorted: Seq<Queued>, x: Queued) -> Seq<Queued> {
    sorted.insert(insert_position(sorted, x.1.0), x)
}

/// Stable sort by descending number of dependants.
pub open spec fn sort_by_dependants(s: Seq<Queued>) -> Seq<Queued>
    decreases s.len(),
{
    if s.len() == 0 {
        s
    } else {
        insert_by_dependants(sort_by_dependants(s.drop_last()), s.last())
    }
}

/// Whether `s` is ordered by descending number of dependants.
pub open spec fn descending(s: Seq<Queued>) -> bool {
    forall|i: int, j: int| 0 <= i < j < s.len() ==> #[trigger] s[i].1.0 >= #[trigger] s[j].1.0
}

proof fn lemma_insert_position_bounds(sorted: Seq<Queued>, key: usize)
    ensures
        0 <= insert_position(sorted, key) <= sorted.len(),
    decreases sorted.len(),
{
    if sorted.len() > 0 {
        lemma_insert_position_bounds(sorted.drop_last(), key);
    }
}

proof fn lemma_insert_position_tail(sorted: Seq<Queued>, key: usize, p: int)
    requires
        0 <= p <= sorted.len(),
        forall|j: int| p <= j < sorted.len() ==> #[trigger] sorted[j].1.0 < key,
    ensures
        insert_position(sorted, key) == insert_position(sorted.take(p), key),
    decreases sorted.len() - p,
{
    if p < sorted.len() {
        assert(sorted.last().1.0 < key);
        lemma_insert_position_tail(sorted.drop_last(), key, p);
        assert(sorted.drop_last().take(p) == sorted.take(p));
    } else {
        assert(sorted.take(p) == sorted);
    }
}

proof fn lemma_insert_position_split(sorted: Seq<Queued>, key: usize)
    requires
        descending(sorted),
    ensures
        forall|j: int| 0 <= j < insert_position(sorted, key) ==> #[trigger] sorted[j].1.0 >= key,
        forall|j: int| insert_position(sorted, key) <= j < sorted.len() ==> #[trigger] sorted[j].1.0 < key,
    decreases sorted.len(),
{
    lemma_insert_position_bounds(sorted, key);
    if sorted.len() > 0 {
        if sorted.last().1.0 >= key {
            assert forall|j: int| 0 <= j < sorted.len() implies #[trigger] sorted[j].1.0 >= key by {
                if j < sorted.len() - 1 {
                    assert(sorted[j].1.0 >= sorted[sorted.len() - 1].1.0);
                }
            }
        } else {
            let d = sorted.drop_last();
            assert(descending(d));
            lemma_insert_position_split(d, key);
            lemma_insert_position_bounds(d, key);
            let p = insert_position(d, key);
            assert forall|j: int| 0 <= j < p implies #[trigger] sorted[j].1.0 >= key by {
                assert(sorted[j] == d[j]);
            }
            assert forall|j: int| p <= j < sorted.len() implies #[trigger] sorted[j].1.0 < key by {
                if j < sorted.len() - 1 {
                    assert(sorted[j] == d[j]);
                }
            }
        }
    }
}

/// What insertion does to membership, length, order and repetition.
pub proof fn lemma_insert_by_dependants(sorted: Seq<Queued>, x: Queued)
    ensures
        insert_by_dependants(sorted, x).len() == sorted.len() + 1,
        forall|y: Queued| #[trigger] insert_by_dependants(sorted, x).contains(y) <==> (sorted.contains(y) || y == x),
        sorted.no_duplicates() && !sorted.contains(x) ==> insert_by_dependants(sorted, x).no_duplicates(),
        descending(sorted) ==> descending(insert_by_dependants(sorted, x)),
{
    lemma_insert_position_bounds(sorted, x.1.0);
    let p = insert_position(sorted, x.1.0);
    let r = sorted.insert(p, x);
    assert forall|y: Queued| #[trigger] r.contains(y) <==> (sorted.contains(y) || y == x) by {
        if r.contains(y) {
            let j = choose|j: int| 0 <= j < r.len() && r[j] == y;
            if j < p {
                assert(sorted[j] == y);
            } else if j > p {
                assert(sorted[j - 1] == y);
            }
        }
        if sorted.contains(y) {
            let j = choose|j: int| 0 <= j < sorted.len() && sorted[j] == y;
            if j < p {
                assert(r[j] == y);
            } else {
                assert(r[j + 1] == y);
            }
        }
        if y == x {
            assert(r[p] == x);
        }
    }
    if sorted.no_duplicates() && !sorted.contains(x) {
        assert forall|i: int, j: int| 0 <= i < j < r.len() implies r[i] != r[j] by {
            if i == p {
                assert(sorted[j - 1] == r[j]);
            } else if j == p {
                assert(sorted[i] == r[i]);
            } else {
                let si = if i < p { i } else { i - 1 };
                let sj = if j < p { j } else { j - 1 };
                assert(sorted[si] == r[i]);
                assert(sorted[sj] == r[j]);
            }
        }
    }
    if descending(sorted) {
        lemma_insert_position_split(sorted, x.1.0);
        assert forall|i: int, j: int| 0 <= i < j < r.len() implies #[trigger] r[i].1.0 >= #[trigger] r[j].1.0 by {
            if i == p {
                assert(r[j] == sorted[j - 1]);
            } else if j == p {
                assert(r[i] == sorted[i]);
            } else {
                let si = if i < p { i } else { i - 1 };
                let sj = if j < p { j } else { j - 1 };
                assert(r[i] == sorted[si]);
                assert(r[j] == sorted[sj]);
            }
        }
    }
}

/// Sorting keeps length and membership, keeps sequences without repetition so, and
/// yields a descending order.
pub proof fn lemma_sort_by_dependants(s: Seq<Queued>)
    ensures
        sort_by_dependants(s).len() == s.len(),
        forall|y: Queued| #[trigger] sort_by_dependants(s).contains(y) <==> s.contains(y),
        s.no_duplicates() ==> sort_by_dependants(s).no_duplicates(),
        descending(sort_by_dependants(s)),
    decreases s.len(),
{
    if s.len() > 0 {
        let d = s.drop_last();
        lemma_sort_by_dependants(d);
        lemma_insert_by_dependants(sort_by_dependants(d), s.last());
        assert forall|y: Queued| #[trigger] s.contains(y) <==> (d.contains(y) || y == s.last()) by {
            if s.contains(y) {
                let j = choose|j: int| 0 <= j < s.len() && s[j] == y;
                if j < s.len() - 1 {
                    assert(d[j] == y);
                }
            }
            if d.contains(y) {
                let j = choose|j: int| 0 <= j < d.len() && d[j] == y;
                assert(s[j] == y);
            }
        }
        if s.no_duplicates() {
            assert(!d.contains(s.last())) by {
                if d.contains(s.last()) {
                    let j = choose|j: int| 0 <= j < d.len() && d[j] == s.last();
                    assert(s[j] == s[s.len() - 1]);
                }
            }
        }
    }
}

/// The entries of `s` with `key` dependants, in their order in `s`.
pub open spec fn with_key(s: Seq<Queued>, key: usize) -> Seq<Queued> {
    s.filter(|e: Queued| e.1.0 == key)
}

proof fn lemma_with_key_none(t: Seq<Queued>, key: usize)
    requires
        forall|j: int| 0 <= j < t.len() ==> (#[trigger] t[j]).1.0 != key,
    ensures
        with_key(t, key) == Seq::<Queued>::empty(),
    decreases t.len(),
{
    reveal(Seq::filter);
    if t.len() > 0 {
        let d = t.drop_last();
        assert forall|j: int| 0 <= j < d.len() implies (#[trigger] d[j]).1.0 != key by {
            assert(d[j] == t[j]);
        }
        lemma_with_key_none(d, key);
    }
}

proof fn lemma_with_key_push(t: Seq<Queued>, x: Queued, key: usize)
    ensures
        with_key(t.push(x), key) == if x.1.0 == key { with_key(t, key).push(x) } else { with_key(t, key) },
{
    reveal(Seq::filter);
    assert(t.push(x).drop_last() == t);
}

/// Sorting is stable: the entries with any one number of dependants come out in the order
/// in which they were queued.
pub proof fn lemma_sort_by_dependants_stable(s: Seq<Queued>, key: usize)
    ensures
        with_key(sort_by_dependants(s), key) == with_key(s, key),
    decreases s.len(),
{
    if s.len() > 0 {
        let d = s.drop_last();
        let x = s.last();
        let sd = sort_by_dependants(d);
        lemma_sort_by_dependants_stable(d, key);
        lemma_sort_by_dependants(d);
        lemma_insert_position_bounds(sd, x.1.0);
        lemma_insert_position_split(sd, x.1.0);
        let p = insert_position(sd, x.1.0);
        let front = sd.take(p);
        let back = sd.skip(p);
        let pred = |e: Queued| e.1.0 == key;
        assert(sort_by_dependants(s) =~= front.push(x) + back);
        assert(sd =~= front + back);
        Seq::filter_distributes_over_add(front.push(x), back, pred);
        Seq::filter_distributes_over_add(front, back, pred);
        lemma_with_key_push(front, x, key);
        lemma_with_key_push(d, x, key);
        assert(s == d.push(x));
        if x.1.0 == key {
            assert forall|j: int| 0 <= j < back.len() implies (#[trigger] back[j]).1.0 != key by {
                assert(back[j] == sd[p + j]);
            }
            lemma_with_key_none(back, key);
            assert(with_key(front, key) + with_key(back, key) =~= with_key(front, key));
            assert(with_key(front, key).push(x) + with_key(back, key) =~= with_key(front, key).push(x));
        }
    }
}

/// Inserts `x` into `sorted` at its place.
fn insert_sorted(sorted: &mut Vec<Queued>, x: Queued)
    requires
        descending(old(sorted)@),
    ensures
        final(sorted)@ == insert_by_dependants(old(sorted)@, x),
{
    let key = x.1.0;
    let mut p = sorted.len();
    while p > 0 && sorted[p - 1].1.0 < key
        invariant
            0 <= p <= sorted@.len(),
            forall|j: int| p <= j < sorted@.len() ==> #[trigger] sorted@[j].1.0 < key,
        decreases p,
    {
        p = p - 1;
    }
    proof {
        lemma_insert_position_tail(sorted@, key, p as int);
        let t = sorted@.take(p as int);
        if p > 0 {
            assert(t.last() == sorted@[p - 1]);
        }
        assert(insert_position(t, key) == p as int);
    }
    sorted.insert(p, x);
}

/// Stable sort of queued systems by descending number of dependants.
pub fn sort_by_dependants_desc(queue: Vec<Queued>) -> (r: Vec<Queued>)
    ensures
        r@ == sort_by_dependants(queue@),
        r@.len() == queue@.len(),
        forall|y: Queued| #[trigger] r@.contains(y) <==> queue@.contains(y),
        queue@.no_duplicates() ==> r@.no_duplicates(),
        descending(r@),
        forall|key: usize| #[trigger] with_key(r@, key) == with_key(queue@, key),
{
    let mut sorted: Vec<Queued> = Vec::new();
    let mut i: usize = 0;
    while i < queue.len()
        invariant
            0 <= i <= queue@.len(),
            sorted@ == sort_by_dependants(queue@.take(i as int)),
        decreases queue@.len() - i,
    {
        proof {
            lemma_sort_by_dependants(queue@.take(i as int));
            assert(queue@.take(i + 1).drop_last() == queue@.take(i as int));
        }
        insert_sorted(&mut sorted, queue[i]);
        i = i + 1;
    }
    proof {
        assert(queue@.take(i as int) == queue@);
        lemma_sort_by_dependants(queue@);
        assert forall|key: usize| #[trigger] with_key(sorted@, key) == with_key(queue@, key) by {
            lemma_sort_by_dependants_stable(queue@, key);
        }
    }
    sorted
}

} // verus!
