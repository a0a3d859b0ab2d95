//! Sets of small indices over a domain of a fixed size.
//!
//! Places, locations and borrows are numbered, and the analyses work on sets
//! of those numbers.

use vstd::prelude::*;

verus! {

/// A set of indices below the size of its domain.
#[derive(Clone, Debug, PartialEq, Eq)]
pub struct IndexSet {
    bits: Vec<bool>,
}

/// The elements of `set` below `bound`, each once, in ascending order.
pub open spec fn ascending(set: Set<usize>, bound: nat) -> Seq<usize>
    decreases bound,
{
    if bound == 0 {
        Seq::empty()
    } else {
        let i = (bound - 1) as usize;
        let smaller = ascending(set, (bound - 1) as nat);
        if set.contains(i) {
            smaller.push(i)
        } else {
            smaller
        }
    }
}

impl View for IndexSet {
    type V = Set<usize>;

    closed spec fn view(&self) -> Set<usize> {
        Set::new(|i: usize| i < self.bits.len() && self.bits@[i as int])
    }
}

impl IndexSet {
    /// The number of indices that the set chooses from.
    pub closed spec fn domain_size(&self) -> nat {
        self.bits@.len()
    }

    /// A set holds only indices of its domain, which a machine index counts.
    pub broadcast proof fn lemma_in_domain(&self, i: usize)
        ensures
            #[trigger] self@.contains(i) ==> i < self.domain_size(),
    {
    }

    /// A set is finite, and no larger than its domain.
    pub proof fn lemma_finite(&self)
        ensures
            self@.finite(),
            self@.len() <= self.domain_size(),
            self.domain_size() <= usize::MAX,
    {
        lemma_ascending(self@, self.domain_size());
        lemma_ascending_len(self@, self.domain_size());
        let listed = ascending(self@, self.domain_size());
        listed.unique_seq_to_set();
        assert(listed.to_set() =~= self@) by {
            assert forall|i: usize| self@.contains(i) implies listed.to_set().contains(i) by {
                assert(listed.contains(i));
            }
        }
        assert(self.bits.len() == self.bits@.len());
    }

    /// The empty set over a domain of the given size.
    pub fn new(domain_size: usize) -> (set: Self)
        ensures
            set@ == Set::<usize>::empty(),
            set.domain_size() == domain_size,
    {
        let mut bits: Vec<bool> = Vec::new();
        let mut i: usize = 0;
        while i < domain_size
            invariant
                i <= domain_size,
                bits@.len() == i,
                forall|k: int| 0 <= k < i ==> !bits@[k],
            decreases domain_size - i,
        {
            bits.push(false);
            i = i + 1;
        }
        let set = IndexSet { bits };
        assert(set@ =~= Set::<usize>::empty());
        set
    }

    /// The number of indices that the set chooses from.
    pub fn domain_len(&self) -> (size: usize)
        ensures
            size == self.domain_size(),
    {
        self.bits.len()
    }

    /// Whether `index` is in the set.
    pub fn contains(&self, index: usize) -> (found: bool)
        requires
            index < self.domain_size(),
        ensures
            found == self@.contains(index),
    {
        self.bits[index]
    }

    /// Adds `index`, and says whether it was absent.
    pub fn insert(&mut self, index: usize) -> (changed: bool)
        requires
            index < old(self).domain_size(),
        ensures
            final(self)@ == old(self)@.insert(index),
            final(self).domain_size() == old(self).domain_size(),
            changed == !old(self)@.contains(index),
    {
        let changed = !self.bits[index];
        self.bits.set(index, true);
        assert(self@ =~= old(self)@.insert(index));
        changed
    }

    /// Takes `index` out, and says whether it was present.
    pub fn remove(&mut self, index: usize) -> (changed: bool)
        requires
            index < old(self).domain_size(),
        ensures
            final(self)@ == old(self)@.remove(index),
            final(self).domain_size() == old(self).domain_size(),
            changed == old(self)@.contains(index),
    {
        let changed = self.bits[index];
        self.bits.set(index, false);
        assert(self@ =~= old(self)@.remove(index));
        changed
    }

    /// Adds every element of `other`, and says whether any was absent.
    pub fn union(&mut self, other: &IndexSet) -> (changed: bool)
        requires
            old(self).domain_size() == other.domain_size(),
        ensures
            final(self)@ == old(self)@.union(other@),
            final(self).domain_size() == old(self).domain_size(),
            changed == (final(self)@ != old(self)@),
    {
        let mut changed = false;
        let mut i: usize = 0;
        while i < self.bits.len()
            invariant
                i <= self.bits@.len(),
                self.bits@.len() == old(self).bits@.len(),
                self.bits@.len() == other.bits@.len(),
                forall|k: int|
                    #![trigger self.bits@[k]]
                    0 <= k < i ==> (self.bits@[k] <==> old(self).bits@[k] || other.bits@[k]),
                forall|k: int|
                    #![trigger self.bits@[k]]
                    i <= k < self.bits@.len() ==> self.bits@[k] == old(self).bits@[k],
                changed == exists|k: int|
                    0 <= k < i && !old(self).bits@[k] && #[trigger] other.bits@[k],
            decreases self.bits@.len() - i,
        {
            assert(self.bits@[i as int] == old(self).bits@[i as int]);
            if other.bits[i] && !self.bits[i] {
                self.bits.set(i, true);
                changed = true;
                assert(!old(self).bits@[i as int] && other.bits@[i as int]);
            }
            i = i + 1;
        }
        proof {
            assert forall|j: usize| self@.contains(j) <==> old(self)@.contains(j)
                || other@.contains(j) by {
                if j < i {
                    assert(self.bits@[j as int] <==> old(self).bits@[j as int]
                        || other.bits@[j as int]);
                }
            }
            assert(self@ =~= old(self)@.union(other@));
            if changed {
                let k = choose|k: int|
                    0 <= k < i && !old(self).bits@[k] && #[trigger] other.bits@[k];
                assert(self@.contains(k as usize) && !old(self)@.contains(k as usize));
            } else {
                assert forall|j: usize| other@.contains(j) implies old(self)@.contains(j) by {
                    assert(other.bits@[j as int]);
                }
                assert(self@ =~= old(self)@);
            }
        }
        changed
    }

    /// Whether every element of `other` is in the set.
    pub fn is_superset(&self, other: &IndexSet) -> (holds: bool)
        requires
            self.domain_size() == other.domain_size(),
        ensures
            holds == other@.subset_of(self@),
    {
        let mut i: usize = 0;
        while i < self.bits.len()
            invariant
                i <= self.bits@.len(),
                self.bits@.len() == other.bits@.len(),
                forall|k: usize| k < i && other@.contains(k) ==> self@.contains(k),
            decreases self.bits@.len() - i,
        {
            if other.bits[i] && !self.bits[i] {
                assert(other@.contains(i) && !self@.contains(i));
                return false;
            }
            i = i + 1;
        }
        true
    }

    /// The elements in ascending order.
    pub fn to_vec(&self) -> (elements: Vec<usize>)
        ensures
            elements@ == ascending(self@, self.domain_size()),
    {
        let mut elements: Vec<usize> = Vec::new();
        let mut i: usize = 0;
        while i < self.bits.len()
            invariant
                i <= self.bits@.len(),
                elements@ == ascending(self@, i as nat),
            decreases self.bits@.len() - i,
        {
            if self.bits[i] {
                elements.push(i);
            }
            i = i + 1;
        }
        elements
    }

    /// The number of elements.
    pub fn len(&self) -> (count: usize)
        ensures
            count == self@.len(),
            self@.finite(),
    {
        proof {
            self.lemma_finite();
            lemma_ascending_len(self@, self.domain_size());
            lemma_ascending(self@, self.domain_size());
            let listed = ascending(self@, self.domain_size());
            listed.unique_seq_to_set();
            assert(listed.to_set() =~= self@) by {
                assert forall|i: usize| self@.contains(i) implies listed.to_set().contains(i) by {
                    assert(listed.contains(i));
                }
            }
        }
        self.to_vec().len()
    }
}

/// The listing of a set holds each element below the bound once, ascending.
pub proof fn lemma_ascending(set: Set<usize>, bound: nat)
    requires
        bound <= usize::MAX,
    ensures
        forall|i: usize| #[trigger]
            ascending(set, bound).contains(i) <==> set.contains(i) && i < bound,
        forall|j: int, k: int|
            0 <= j < k < ascending(set, bound).len() ==> ascending(set, bound)[j] < ascending(
                set,
                bound,
            )[k],
        ascending(set, bound).no_duplicates(),
    decreases bound,
{
    if bound > 0 {
        let last = (bound - 1) as usize;
        let smaller = ascending(set, (bound - 1) as nat);
        lemma_ascending(set, (bound - 1) as nat);
        assert forall|i: usize| #[trigger]
            ascending(set, bound).contains(i) <==> set.contains(i) && i < bound by {
            if smaller.contains(i) {
                let k = choose|k: int| 0 <= k < smaller.len() && smaller[k] == i;
                assert(ascending(set, bound)[k] == i);
            }
            if set.contains(last) {
                assert(ascending(set, bound)[smaller.len() as int] == last);
            }
        }
        assert forall|j: int, k: int|
            0 <= j < k < ascending(set, bound).len() implies ascending(set, bound)[j] < ascending(
            set,
            bound,
        )[k] by {
            assert(smaller.contains(smaller[j]));
        }
    }
}

/// The listing of a set is no longer than its bound.
proof fn lemma_ascending_len(set: Set<usize>, bound: nat)
    ensures
        ascending(set, bound).len() <= bound,
    decreases bound,
{
    if bound > 0 {
        lemma_ascending_len(set, (bound - 1) as nat);
    }
}

} // verus!
