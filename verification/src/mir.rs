//! The parts of a function's intermediate representation that the analyses
//! read: places, operands, statements, terminators and the points between them.

use crate::index_set::IndexSet;
use vstd::prelude::*;

verus! {

/// A set of places, by number.
pub type PlaceSet = IndexSet;

/// A set of points, by number.
pub type LocationSet = IndexSet;

/// A point of a body: a statement of a block, or, one past the last statement,
/// the block's terminator.
#[derive(Clone, Copy, Debug, PartialEq, Eq, Hash, Structural)]
pub struct Location {
    pub block: usize,
    pub statement_index: usize,
}

/// One step from a place into a part of it.
#[derive(Clone, Copy, Debug, PartialEq, Eq, Hash, Structural)]
pub enum PlaceElem {
    Deref,
    Field(usize),
    Index(usize),
    ConstantIndex { offset: u64, min_length: u64, from_end: bool },
    Subslice { from: u64, to: u64, from_end: bool },
    Downcast(usize),
}

/// A local variable, or a part of one that a list of steps leads to.
#[derive(Clone, Debug, PartialEq, Eq, Hash)]
pub struct Place {
    pub local: usize,
    pub projection: Vec<PlaceElem>,
}

/// What a place denotes.
#[verifier::ext_equal]
pub struct PlaceModel {
    pub local: usize,
    pub projection: Seq<PlaceElem>,
}

/// The local that holds a function's result.
pub const RETURN_LOCAL: usize = 0;

impl PlaceModel {
    /// The whole of a local variable.
    pub open spec fn whole(local: usize) -> PlaceModel {
        PlaceModel { local, projection: Seq::empty() }
    }

    /// What the pointer in a place points to.
    pub open spec fn deref(self) -> PlaceModel {
        PlaceModel { local: self.local, projection: self.projection.push(PlaceElem::Deref) }
    }
}

impl View for Place {
    type V = PlaceModel;

    open spec fn view(&self) -> PlaceModel {
        PlaceModel { local: self.local, projection: self.projection@ }
    }
}

impl Place {
    /// The whole of a local variable.
    pub fn whole(local: usize) -> (place: Place)
        ensures
            place@ == PlaceModel::whole(local),
    {
        Place { local, projection: Vec::new() }
    }

    /// The place that holds a function's result.
    pub fn return_place() -> (place: Place)
        ensures
            place@ == PlaceModel::whole(RETURN_LOCAL),
    {
        Place::whole(RETURN_LOCAL)
    }

    /// What the pointer in this place points to.
    pub fn deref(&self) -> (place: Place)
        ensures
            place@ == self@.deref(),
    {
        let mut projection: Vec<PlaceElem> = Vec::new();
        let mut i: usize = 0;
        while i < self.projection.len()
            invariant
                i <= self.projection@.len(),
                projection@ == self.projection@.take(i as int),
            decreases self.projection@.len() - i,
        {
            projection.push(self.projection[i]);
            i = i + 1;
            assert(projection@ =~= self.projection@.take(i as int));
        }
        projection.push(PlaceElem::Deref);
        let place = Place { local: self.local, projection };
        assert(place@ =~= self@.deref());
        place
    }

    /// Whether two places are the same.
    pub fn same(&self, other: &Place) -> (equal: bool)
        ensures
            equal == (self@ == other@),
    {
        if self.local != other.local || self.projection.len() != other.projection.len() {
            return false;
        }
        let mut i: usize = 0;
        while i < self.projection.len()
            invariant
                i <= self.projection@.len(),
                self.projection@.len() == other.projection@.len(),
                forall|k: int| 0 <= k < i ==> self.projection@[k] == other.projection@[k],
            decreases self.projection@.len() - i,
        {
            if self.projection[i] != other.projection[i] {
                return false;
            }
            i = i + 1;
        }
        assert(self@ =~= other@);
        true
    }
}

/// The whole of a local is the local without a step, and what the pointer in a place
/// points to is one step further, the steps before it staying as they are.
pub proof fn pointee_is_one_step_further(place: PlaceModel, local: usize)
    ensures
        PlaceModel::whole(local).local == local,
        PlaceModel::whole(local).projection.len() == 0,
        place.deref().local == place.local,
        place.deref().projection.len() == place.projection.len() + 1,
        place.deref().projection.last() == PlaceElem::Deref,
        place.deref().projection.drop_last() == place.projection,
{
    assert(place.deref().projection.drop_last() =~= place.projection);
}

/// The places of a body, numbered in the order in which they were added.
#[derive(Debug)]
pub struct PlaceIndices {
    places: Vec<Place>,
}

impl View for PlaceIndices {
    type V = Seq<PlaceModel>;

    closed spec fn view(&self) -> Seq<PlaceModel> {
        self.places@.map_values(|p: Place| p@)
    }
}

impl PlaceIndices {
    /// No place has two numbers.
    #[verifier::type_invariant]
    spec fn distinct(&self) -> bool {
        self@.no_duplicates()
    }

    /// Whether `place` has a number.
    pub open spec fn has(&self, place: PlaceModel) -> bool {
        self@.contains(place)
    }

    /// The number of `place`.
    pub open spec fn index_of(&self, place: PlaceModel) -> usize {
        self@.index_of(place) as usize
    }

    /// Numbering no place.
    pub fn new() -> (indices: PlaceIndices)
        ensures
            indices@ == Seq::<PlaceModel>::empty(),
    {
        let places: Vec<Place> = Vec::new();
        assert(places@.map_values(|p: Place| p@) =~= Seq::<PlaceModel>::empty());
        PlaceIndices { places }
    }

    /// The number of places.
    pub fn len(&self) -> (count: usize)
        ensures
            count == self@.len(),
    {
        self.places.len()
    }

    /// The number of `place`, if it has one.
    pub fn find(&self, place: &Place) -> (index: Option<usize>)
        ensures
            index is Some <==> self.has(place@),
            index matches Some(i) ==> i < self@.len() && self@[i as int] == place@ && i
                == self.index_of(place@),
    {
        proof {
            use_type_invariant(self);
        }
        let mut i: usize = 0;
        while i < self.places.len()
            invariant
                i <= self.places@.len(),
                self.distinct(),
                forall|k: int| 0 <= k < i ==> self@[k] != place@,
            decreases self.places@.len() - i,
        {
            if self.places[i].same(place) {
                assert(self@[i as int] == place@);
                return Some(i);
            }
            i = i + 1;
        }
        None
    }

    /// Numbers `place` if it has no number yet, and returns its number.
    pub fn add(&mut self, place: Place) -> (index: usize)
        ensures
            final(self)@ == (if old(self).has(place@) {
                old(self)@
            } else {
                old(self)@.push(place@)
            }),
            final(self).has(place@),
            index == final(self).index_of(place@),
            index < final(self)@.len(),
    {
        proof {
            use_type_invariant(&*self);
        }
        let ghost model = place@;
        match self.find(&place) {
            Some(i) => i,
            None => {
                let i = self.places.len();
                let mut places: Vec<Place> = Vec::new();
                std::mem::swap(&mut places, &mut self.places);
                places.push(place);
                let ghost after = places@.map_values(|p: Place| p@);
                assert(after =~= old(self)@.push(model));
                self.places = places;
                assert(self@ =~= old(self)@.push(model));
                assert(self@[i as int] == model);
                i
            },
        }
    }

    /// The number of a place that has one.
    pub fn index(&self, place: &Place) -> (index: usize)
        requires
            self.has(place@),
        ensures
            index == self.index_of(place@),
            index < self@.len(),
            self@[index as int] == place@,
    {
        match self.find(place) {
            Some(i) => i,
            None => 0,
        }
    }

    /// The place with the given number.
    pub fn lookup(&self, index: usize) -> (place: &Place)
        requires
            index < self@.len(),
        ensures
            place@ == self@[index as int],
    {
        &self.places[index]
    }

    /// The empty set of places.
    pub fn empty_set(&self) -> (set: IndexSet)
        ensures
            set@ == Set::<usize>::empty(),
            set.domain_size() == self@.len(),
    {
        IndexSet::new(self.places.len())
    }

    /// Looking up the number of a place gives the place back, and numbering what
    /// was looked up gives the number back.
    pub proof fn index_and_lookup_are_inverse(&self, place: PlaceModel, index: usize)
        requires
            self@.no_duplicates(),
        ensures
            self.has(place) && self@.len() <= usize::MAX ==> self.index_of(place) < self@.len()
                && self@[self.index_of(place) as int] == place,
            index < self@.len() ==> self.has(self@[index as int]) && self.index_of(
                self@[index as int],
            ) == index,
    {
    }
}

/// The points of a body, numbered in the order in which they were added.
#[derive(Debug)]
pub struct LocationIndices {
    locations: Vec<Location>,
}

impl View for LocationIndices {
    type V = Seq<Location>;

    closed spec fn view(&self) -> Seq<Location> {
        self.locations@
    }
}

impl LocationIndices {
    /// No point has two numbers.
    #[verifier::type_invariant]
    spec fn distinct(&self) -> bool {
        self@.no_duplicates()
    }

    /// Whether `location` has a number.
    pub open spec fn has(&self, location: Location) -> bool {
        self@.contains(location)
    }

    /// The number of `location`.
    pub open spec fn index_of(&self, location: Location) -> usize {
        self@.index_of(location) as usize
    }

    /// Numbering no point.
    pub fn new() -> (indices: LocationIndices)
        ensures
            indices@ == Seq::<Location>::empty(),
    {
        LocationIndices { locations: Vec::new() }
    }

    /// The number of points.
    pub fn len(&self) -> (count: usize)
        ensures
            count == self@.len(),
    {
        self.locations.len()
    }

    /// The number of `location`, if it has one.
    pub fn find(&self, location: Location) -> (index: Option<usize>)
        ensures
            index is Some <==> self.has(location),
            index matches Some(i) ==> i < self@.len() && self@[i as int] == location && i
                == self.index_of(location),
    {
        proof {
            use_type_invariant(self);
        }
        let mut i: usize = 0;
        while i < self.locations.len()
            invariant
                i <= self.locations@.len(),
                self.distinct(),
                forall|k: int| 0 <= k < i ==> self@[k] != location,
            decreases self.locations@.len() - i,
        {
            if self.locations[i] == location {
                return Some(i);
            }
            i = i + 1;
        }
        None
    }

    /// Numbers `location` if it has no number yet, and returns its number.
    pub fn add(&mut self, location: Location) -> (index: usize)
        ensures
            final(self)@ == (if old(self).has(location) {
                old(self)@
            } else {
                old(self)@.push(location)
            }),
            final(self).has(location),
            index == final(self).index_of(location),
            index < final(self)@.len(),
    {
        proof {
            use_type_invariant(&*self);
        }
        match self.find(location) {
            Some(i) => i,
            None => {
                let i = self.locations.len();
                let mut locations: Vec<Location> = Vec::new();
                std::mem::swap(&mut locations, &mut self.locations);
                locations.push(location);
                self.locations = locations;
                assert(self@[i as int] == location);
                i
            },
        }
    }

    /// The number of a point that has one.
    pub fn index(&self, location: Location) -> (index: usize)
        requires
            self.has(location),
        ensures
            index == self.index_of(location),
            index < self@.len(),
            self@[index as int] == location,
    {
        match self.find(location) {
            Some(i) => i,
            None => 0,
        }
    }

    /// The point with the given number.
    pub fn lookup(&self, index: usize) -> (location: Location)
        requires
            index < self@.len(),
        ensures
            location == self@[index as int],
    {
        self.locations[index]
    }

    /// The empty set of points.
    pub fn empty_set(&self) -> (set: IndexSet)
        ensures
            set@ == Set::<usize>::empty(),
            set.domain_size() == self@.len(),
    {
        IndexSet::new(self.locations.len())
    }

    /// Looking up the number of a point gives the point back, and numbering what was
    /// looked up gives the number back.
    pub proof fn index_and_lookup_are_inverse(&self, location: Location, index: usize)
        requires
            self@.no_duplicates(),
        ensures
            self.has(location) && self@.len() <= usize::MAX ==> self.index_of(location)
                < self@.len() && self@[self.index_of(location) as int] == location,
            index < self@.len() ==> self.has(self@[index as int]) && self.index_of(
                self@[index as int],
            ) == index,
    {
    }
}

/// Whether a borrow or a pointer allows writing.
#[derive(Clone, Copy, Debug, PartialEq, Eq, Hash, Structural)]
pub enum Mutability {
    Mut,
    Not,
}

/// A pointer inside a place.
#[derive(Clone, Debug, PartialEq, Eq, Hash)]
pub struct Pointer {
    pub place: Place,
    pub mutability: Mutability,
}

/// What a statement or a terminator reads.
#[derive(Clone, Debug, PartialEq, Eq)]
pub enum Operand {
    Move(Place),
    Copy(Place),
    Constant,
}

impl Operand {
    /// The place that the operand reads, if it reads one.
    pub open spec fn read(self) -> Option<PlaceModel> {
        match self {
            Operand::Move(place) => Some(place@),
            Operand::Copy(place) => Some(place@),
            Operand::Constant => None,
        }
    }

    /// The place that the operand reads, if it reads one.
    pub fn place(&self) -> (place: Option<&Place>)
        ensures
            place is Some <==> self.read() is Some,
            place matches Some(p) ==> self.read() == Some(p@),
    {
        match self {
            Operand::Move(place) => Some(place),
            Operand::Copy(place) => Some(place),
            Operand::Constant => None,
        }
    }
}

/// The right-hand side of an assignment: the places that it mentions, in the
/// order in which it mentions them.
#[derive(Clone, Debug, PartialEq, Eq)]
pub struct Rvalue {
    pub places: Vec<Place>,
}

/// A statement. Those that assign nothing are alike to the analyses.
#[derive(Clone, Debug, PartialEq, Eq)]
pub enum Statement {
    Assign(Place, Rvalue),
    Other,
}

/// The end of a block. Only calls and switches matter to the analyses.
#[derive(Clone, Debug, PartialEq, Eq)]
pub enum Terminator {
    Call { args: Vec<Operand>, destination: Option<Place> },
    SwitchInt { discr: Operand },
    Other,
}

/// A value for each point of a body.
#[derive(Debug)]
pub struct PointTable<T> {
    pub blocks: Vec<Vec<T>>,
}

impl<T> PointTable<T> {
    /// Whether the table has a value for `location`.
    pub open spec fn covers(&self, location: Location) -> bool {
        location.block < self.blocks@.len() && location.statement_index
            < self.blocks@[location.block as int]@.len()
    }

    /// The value for `location`.
    pub open spec fn value(&self, location: Location) -> T {
        self.blocks@[location.block as int]@[location.statement_index as int]
    }

    /// Whether the table has a value for `location`.
    pub fn has(&self, location: Location) -> (found: bool)
        ensures
            found == self.covers(location),
    {
        location.block < self.blocks.len() && location.statement_index
            < self.blocks[location.block].len()
    }

    /// The value for `location`.
    pub fn at(&self, location: Location) -> (value: &T)
        requires
            self.covers(location),
        ensures
            *value == self.value(location),
    {
        &self.blocks[location.block][location.statement_index]
    }
}

} // verus!
