//! Sets of type keys: the component and resource types a system borrows.
use vstd::prelude::*;

verus! {

/// A type, named by an integer key that is unique to it within one program run.
pub type TypeKey = u64;

/// A set of type keys without repetition, kept in insertion order.
pub struct TypeSet {
    keys: Vec<TypeKey>,
}

impl View for TypeSet {
    type V = Set<TypeKey>;

    closed spec fn view(&self) -> Set<TypeKey> {
        self.keys@.to_set()
    }
}

impl TypeSet {
    /// The keys hold no repetition.
    #[verifier::type_invariant]
    closed spec fn inv(self) -> bool {
        self.keys@.no_duplicates()
    }

    /// The keys in the order they were inserted.
    pub closed spec fn order(&self) -> Seq<TypeKey> {
        self.keys@
    }

    /// An empty set.
    pub fn new() -> (r: Self)
        ensures
            r@ == Set::<TypeKey>::empty(),
            r.order() == Seq::<TypeKey>::empty(),
    {
        let r = TypeSet { keys: Vec::new() };
        proof {
            assert(r.keys@.to_set() =~= Set::<TypeKey>::empty());
        }
        r
    }

    /// Number of keys in the set.
    pub fn len(&self) -> (r: usize)
        ensures
            r == self.order().len(),
    {
        self.keys.len()
    }

    /// The `i`-th key in insertion order.
    pub fn get(&self, i: usize) -> (r: TypeKey)
        requires
            i < self.order().len(),
        ensures
            r == self.order()[i as int],
    {
        self.keys[i]
    }

    /// The keys in insertion order.
    pub fn to_vec(&self) -> (r: Vec<TypeKey>)
        ensures
            r@ == self.order(),
            r@.no_duplicates(),
            r@.to_set() == self@,
    {
        proof { use_type_invariant(self); }
        let mut r: Vec<TypeKey> = Vec::new();
        let mut i: usize = 0;
        while i < self.keys.len()
            invariant
                0 <= i <= self.keys@.len(),
                r@ == self.keys@.take(i as int),
            decreases self.keys@.len() - i,
        {
            r.push(self.keys[i]);
            proof {
                assert(self.keys@.take(i + 1) == self.keys@.take(i as int).push(self.keys@[i as int]));
            }
            i = i + 1;
        }
        proof {
            assert(self.keys@.take(i as int) == self.keys@);
        }
        r
    }

    /// Whether `key` is in the set.
    pub fn contains(&self, key: TypeKey) -> (r: bool)
        ensures
            r == self@.contains(key),
    {
        let mut i: usize = 0;
        while i < self.keys.len()
            invariant
                0 <= i <= self.keys@.len(),
                forall|j: int| 0 <= j < i ==> self.keys@[j] != key,
            decreases self.keys@.len() - i,
        {
            if self.keys[i] == key {
                proof {
                    assert(self.keys@.contains(key));
                }
                return true;
            }
            i = i + 1;
        }
        proof {
            assert(!self.keys@.contains(key));
        }
        false
    }

    /// Adds `key`; returns whether it was absent before.
    pub fn insert(&mut self, key: TypeKey) -> (r: bool)
        ensures
            final(self)@ == old(self)@.insert(key),
            r == !old(self)@.contains(key),
            r ==> final(self).order() == old(self).order().push(key),
            !r ==> final(self).order() == old(self).order(),
    {
        proof { use_type_invariant(&*self); }
        if self.contains(key) {
            false
        } else {
            let ghost before = self.keys@;
            let mut keys = Vec::new();
            std::mem::swap(&mut keys, &mut self.keys);
            keys.push(key);
            proof {
                assert(keys@ == before.push(key));
                lemma_push_to_set(before, key);
            }
            self.keys = keys;
            true
        }
    }

    /// Adds every key of `other`.
    pub fn extend(&mut self, other: &TypeSet)
        ensures
            final(self)@ == old(self)@.union(other@),
    {
        proof { use_type_invariant(other); }
        let mut i: usize = 0;
        while i < other.keys.len()
            invariant
                0 <= i <= other.keys@.len(),
                self@ == old(self)@.union(other.keys@.subrange(0, i as int).to_set()),
            decreases other.keys@.len() - i,
        {
            let ghost prev = self@;
            self.insert(other.keys[i]);
            proof {
                assert(other.keys@.subrange(0, i + 1) == other.keys@.subrange(0, i as int).push(other.keys@[i as int]));
                lemma_push_to_set(other.keys@.subrange(0, i as int), other.keys@[i as int]);
                assert(self@ =~= old(self)@.union(other.keys@.subrange(0, i + 1).to_set()));
            }
            i = i + 1;
        }
        proof {
            assert(other.keys@.subrange(0, other.keys@.len() as int) == other.keys@);
        }
    }

    /// Removes every key.
    pub fn clear(&mut self)
        ensures
            final(self)@ == Set::<TypeKey>::empty(),
            final(self).order() == Seq::<TypeKey>::empty(),
    {
        self.keys = Vec::new();
        proof {
            assert(self.keys@.to_set() =~= Set::<TypeKey>::empty());
        }
    }

    /// Whether the two sets have no key in common.
    pub fn is_disjoint(&self, other: &TypeSet) -> (r: bool)
        ensures
            r == self@.disjoint(other@),
    {
        let mut i: usize = 0;
        while i < self.keys.len()
            invariant
                0 <= i <= self.keys@.len(),
                forall|j: int| 0 <= j < i ==> !other@.contains(#[trigger] self.keys@[j]),
            decreases self.keys@.len() - i,
        {
            if other.contains(self.keys[i]) {
                proof {
                    assert(self@.contains(self.keys@[i as int]));
                }
                return false;
            }
            i = i + 1;
        }
        proof {
            assert forall|k: TypeKey| self@.contains(k) implies !other@.contains(k) by {
                let j = choose|j: int| 0 <= j < self.keys@.len() && self.keys@[j] == k;
            }
        }
        true
    }
}

/// Pushing onto a sequence adds the element to its set.
pub proof fn lemma_push_to_set(s: Seq<TypeKey>, x: TypeKey)
    ensures
        s.push(x).to_set() == s.to_set().insert(x),
{
    assert forall|k: TypeKey| s.push(x).to_set().contains(k) <==> s.to_set().insert(x).contains(k) by {
        if s.push(x).contains(k) && k != x {
            let j = choose|j: int| 0 <= j < s.push(x).len() && s.push(x)[j] == k;
            assert(j < s.len());
            assert(s[j] == k);
        }
        if s.contains(k) {
            let j = choose|j: int| 0 <= j < s.len() && s[j] == k;
            assert(s.push(x)[j] == k);
        }
        if k == x {
            assert(s.push(x)[s.len() as int] == x);
        }
    }
    assert(s.push(x).to_set() =~= s.to_set().insert(x));
}

} // verus!
