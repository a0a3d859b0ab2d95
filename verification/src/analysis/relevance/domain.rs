//! What is known at a point of a body: which places matter, and whether the
//! statement and the path do.

use crate::mir::{Location, PlaceSet};
use vstd::prelude::*;

verus! {

/// The statements that a slice is taken from.
#[derive(Debug)]
pub struct SliceSet {
    locations: Vec<Location>,
}

impl View for SliceSet {
    type V = Set<Location>;

    closed spec fn view(&self) -> Set<Location> {
        self.locations@.to_set()
    }
}

impl SliceSet {
    /// No statement is listed twice.
    #[verifier::type_invariant]
    spec fn distinct(&self) -> bool {
        self.locations@.no_duplicates()
    }

    /// No statement.
    pub fn new() -> (set: SliceSet)
        ensures
            set@ == Set::<Location>::empty(),
    {
        let set = SliceSet { locations: Vec::new() };
        assert(set@ =~= Set::<Location>::empty());
        set
    }

    /// Adds a statement, and says whether it was absent.
    pub fn insert(&mut self, location: Location) -> (changed: bool)
        ensures
            final(self)@ == old(self)@.insert(location),
            changed == !old(self)@.contains(location),
    {
        proof {
            use_type_invariant(&*self);
        }
        if self.contains(location) {
            assert(self@ =~= old(self)@.insert(location));
            false
        } else {
            let mut locations: Vec<Location> = Vec::new();
            std::mem::swap(&mut locations, &mut self.locations);
            locations.push(location);
            assert(!old(self).locations@.contains(location));
            assert(locations@.no_duplicates());
            self.locations = locations;
            proof {
                let before = old(self).locations@;
                assert forall|l: Location|
                    self@.contains(l) <==> old(self)@.insert(location).contains(l) by {
                    if before.contains(l) {
                        let k = choose|k: int| 0 <= k < before.len() && before[k] == l;
                        assert(self.locations@[k] == l);
                    }
                    assert(self.locations@[before.len() as int] == location);
                }
                assert(self@ =~= old(self)@.insert(location));
            }
            true
        }
    }

    /// Whether a statement is in the set.
    pub fn contains(&self, location: Location) -> (found: bool)
        ensures
            found == self@.contains(location),
    {
        let mut i: usize = 0;
        while i < self.locations.len()
            invariant
                i <= self.locations@.len(),
                forall|k: int| 0 <= k < i ==> self.locations@[k] != location,
            decreases self.locations@.len() - i,
        {
            if self.locations[i] == location {
                assert(self.locations@.contains(location));
                return true;
            }
            i = i + 1;
        }
        false
    }
}

/// Whether a path matters. `Unknown` is what is assumed of a path that has not
/// been looked at.
#[derive(Clone, Copy, Debug, PartialEq, Eq, Structural)]
pub enum Relevant {
    Yes,
    No,
    Unknown,
}

impl Relevant {
    /// How much is known: nothing, that a path does not matter, that it does.
    pub open spec fn rank(self) -> int {
        match self {
            Relevant::Unknown => 0,
            Relevant::No => 1,
            Relevant::Yes => 2,
        }
    }

    /// The order that `join` goes up in.
    pub open spec fn le(self, other: Relevant) -> bool {
        self.rank() <= other.rank()
    }

    /// The larger of the two.
    pub open spec fn joined(self, other: Relevant) -> Relevant {
        if self.le(other) {
            other
        } else {
            self
        }
    }

    /// Replaces the value by the larger of the two, and says whether that
    /// changed it.
    pub fn join(&mut self, other: &Relevant) -> (changed: bool)
        ensures
            *final(self) == old(self).joined(*other),
            changed == (*final(self) != *old(self)),
    {
        let state = match (*self, *other) {
            (Relevant::Yes, _) => Relevant::Yes,
            (_, Relevant::Yes) => Relevant::Yes,
            (Relevant::No, _) => Relevant::No,
            (_, Relevant::No) => Relevant::No,
            _ => Relevant::Unknown,
        };
        if state != *self {
            *self = state;
            true
        } else {
            false
        }
    }
}

/// What is known at a point of a body: the places that matter there, and
/// whether the last statement and the path did.
#[derive(Clone, Debug, PartialEq, Eq)]
pub struct RelevanceDomain {
    pub places: PlaceSet,
    pub statement_relevant: bool,
    pub path_relevant: Relevant,
}

/// What a `RelevanceDomain` denotes.
#[verifier::ext_equal]
pub struct DomainModel {
    pub places: Set<usize>,
    pub statement_relevant: bool,
    pub path_relevant: Relevant,
}

impl View for RelevanceDomain {
    type V = DomainModel;

    open spec fn view(&self) -> DomainModel {
        DomainModel {
            places: self.places@,
            statement_relevant: self.statement_relevant,
            path_relevant: self.path_relevant,
        }
    }
}

impl DomainModel {
    /// The order that `join` goes up in. What was found of the last statement is
    /// not part of it.
    pub open spec fn le(self, other: DomainModel) -> bool {
        &&& self.places.subset_of(other.places)
        &&& self.path_relevant.le(other.path_relevant)
    }

    /// The least that is above both in the places and the path; what was found of
    /// the last statement stays.
    pub open spec fn joined(self, other: DomainModel) -> DomainModel {
        DomainModel {
            places: self.places.union(other.places),
            statement_relevant: self.statement_relevant,
            path_relevant: self.path_relevant.joined(other.path_relevant),
        }
    }

    /// With more places, on account of a statement that matters.
    pub open spec fn adding(self, more: Set<usize>) -> DomainModel {
        DomainModel {
            places: self.places.union(more),
            statement_relevant: true,
            path_relevant: Relevant::Yes,
        }
    }
}

impl RelevanceDomain {
    /// Adds what is known of another path to the same point, and says whether
    /// that changed anything.
    pub fn join(&mut self, other: &RelevanceDomain) -> (changed: bool)
        requires
            old(self).places.domain_size() == other.places.domain_size(),
        ensures
            final(self)@ == old(self)@.joined(other@),
            final(self).places.domain_size() == old(self).places.domain_size(),
            changed == (final(self)@ != old(self)@),
    {
        let places_changed = self.places.union(&other.places);
        let path_relevant_changed = self.path_relevant.join(&other.path_relevant);
        places_changed || path_relevant_changed
    }
}

/// Joining what is known of paths: the result is the least value above both, it
/// does not depend on the order or the grouping, and joining a value with itself
/// changes nothing.
pub proof fn join_is_least_upper_bound(a: DomainModel, b: DomainModel, c: DomainModel)
    ensures
        a.le(a.joined(b)),
        b.le(a.joined(b)),
        a.le(c) && b.le(c) ==> a.joined(b).le(c),
        a.joined(b).places == b.joined(a).places,
        a.joined(b).path_relevant == b.joined(a).path_relevant,
        a.joined(b).joined(c) == a.joined(b.joined(c)),
        a.joined(a) == a,
        b.le(a) <==> a.joined(b) == a,
{
    assert(a.joined(b).places =~= b.joined(a).places);
    assert(a.joined(b).joined(c).places =~= a.joined(b.joined(c)).places);
    assert(a.joined(a).places =~= a.places);
    if b.le(a) {
        assert(a.joined(b).places =~= a.places);
    }
    if a.joined(b) == a {
        assert forall|i: usize| b.places.contains(i) implies a.places.contains(i) by {
            assert(a.joined(b).places.contains(i));
        }
    }
}

/// Joining what is known of whether a path matters: the result is the least
/// value above both, whatever the order and the grouping.
pub proof fn relevant_join_is_least_upper_bound(a: Relevant, b: Relevant, c: Relevant)
    ensures
        a.le(a.joined(b)),
        b.le(a.joined(b)),
        a.le(c) && b.le(c) ==> a.joined(b).le(c),
        a.le(b) && b.le(a) ==> a == b,
        a.joined(b) == b.joined(a),
        a.joined(b).joined(c) == a.joined(b.joined(c)),
        a.joined(a) == a,
        Relevant::Unknown.joined(a) == a,
{
}

/// What is assumed of a point that has not been looked at adds nothing to what a
/// path knows.
pub proof fn bottom_is_neutral(bottom: DomainModel, state: DomainModel)
    requires
        bottom.places == Set::<usize>::empty(),
        bottom.path_relevant == Relevant::Unknown,
    ensures
        state.joined(bottom) == state,
        bottom.joined(state).places == state.places,
        bottom.joined(state).path_relevant == state.path_relevant,
        bottom.le(state),
{
    assert(state.joined(bottom).places =~= state.places);
    assert(bottom.joined(state).places =~= state.places);
}

} // verus!
