use vstd::prelude::*;
use vstd::set_lib::lemma_int_range;
use vstd::set_lib::lemma_len_subset;
use vstd::set_lib::set_int_range;

verus! {

/// A set of automaton states, stored as a bitmap over the states
/// `0 .. bound`.  Its view is the mathematical set of the states whose bit
/// is on, so membership, not any insertion order, is all a `StateSet`
/// carries.
pub struct StateSet {
    bits: Vec<bool>,
}

impl View for StateSet {
    type V = Set<int>;

    closed spec fn view(&self) -> Set<int> {
        Set::new(|q: int| 0 <= q < self.bits@.len() && self.bits@[q])
    }
}

impl StateSet {
    /// How many distinct states the set can hold; every member lies below it.
    pub closed spec fn bound(&self) -> nat {
        self.bits@.len()
    }

    /// Every member lies below the bound.
    pub proof fn lemma_members_bounded(&self)
        ensures
            forall|q: int| self@.contains(q) ==> 0 <= q < self.bound(),
    {
    }

    /// The set is finite and holds at most `bound` members.
    pub proof fn lemma_finite(&self)
        ensures
            self@.finite(),
            self@.len() <= self.bound(),
    {
        lemma_int_range(0, self.bound() as int);
        assert(self@.subset_of(set_int_range(0, self.bound() as int)));
        lemma_len_subset(self@, set_int_range(0, self.bound() as int));
    }

    /// An empty set over the states `0 .. n`.
    pub fn new(n: usize) -> (r: StateSet)
        ensures
            r.bound() == n,
            r@ == Set::<int>::empty(),
    {
        let mut bits: Vec<bool> = Vec::new();
        let mut i: usize = 0;
        while i < n
            invariant
                i <= n,
                bits@.len() == i,
                forall|j: int| 0 <= j < i ==> !(#[trigger] bits@[j]),
            decreases n - i,
        {
            bits.push(false);
            i += 1;
        }
        let r = StateSet { bits };
        proof {
            assert(r@ =~= Set::<int>::empty());
        }
        r
    }

    /// Whether `q` is a member.  A state at or above the bound is never a
    /// member, so no bound on `q` is asked of the caller.
    pub fn contains(&self, q: usize) -> (r: bool)
        ensures
            r == self@.contains(q as int),
    {
        q < self.bits.len() && self.bits[q]
    }

    /// Adds `q` to the set.
    pub fn insert(&mut self, q: usize)
        requires
            q < old(self).bound(),
        ensures
            final(self).bound() == old(self).bound(),
            final(self)@ == old(self)@.insert(q as int),
    {
        self.bits[q] = true;
        proof {
            assert(self@ =~= old(self)@.insert(q as int));
        }
    }

    /// An identical copy of the set.
    pub fn duplicate(&self) -> (r: StateSet)
        ensures
            r.bound() == self.bound(),
            r@ == self@,
    {
        let mut bits: Vec<bool> = Vec::new();
        let mut i: usize = 0;
        while i < self.bits.len()
            invariant
                i <= self.bits@.len(),
                bits@.len() == i,
                forall|j: int| 0 <= j < i ==> (#[trigger] bits@[j]) == self.bits@[j],
            decreases self.bits@.len() - i,
        {
            bits.push(self.bits[i]);
            i += 1;
        }
        let r = StateSet { bits };
        proof {
            assert(r@ =~= self@);
        }
        r
    }

    /// Whether the set has no members at all.
    pub fn is_empty(&self) -> (r: bool)
        ensures
            r <==> (forall|q: int| !self@.contains(q)),
    {
        let mut i: usize = 0;
        while i < self.bits.len()
            invariant
                i <= self.bits@.len(),
                forall|j: int| 0 <= j < i ==> !(#[trigger] self.bits@[j]),
            decreases self.bits@.len() - i,
        {
            if self.bits[i] {
                proof {
                    assert(self@.contains(i as int));
                }
                return false;
            }
            i += 1;
        }
        true
    }
}

} // verus!
