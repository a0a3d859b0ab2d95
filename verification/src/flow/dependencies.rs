//! What a value depends on, and what depends on it.
//!
//! A flow analysis gives, after each point of a body, the points that each place
//! depends on. A target is a place at a point. Backward, a place at a point is a
//! dependency of a target if the target depends on all that the place depends
//! on; forward, if the place depends on all that the target depends on.

use crate::index_matrix::IndexMatrix;
use crate::mir::{
    Location, LocationIndices, LocationSet, Place, PlaceIndices, PlaceModel, PlaceSet, PointTable,
    Pointer,
};
use vstd::prelude::*;

verus! {

/// For each place, by number, the points that it depends on.
pub type FlowDomain = IndexMatrix;

/// Whether to look for what a target influences, or for what influences it.
#[derive(Clone, Copy, Debug, PartialEq, Eq, Structural)]
pub enum Direction {
    Forward,
    Backward,
}

/// Whether a place that depends on `deps` is a dependency of a target that depends
/// on `target`. A place that depends on nothing never is.
pub open spec fn related(direction: Direction, deps: Set<usize>, target: Set<usize>) -> bool {
    &&& deps != Set::<usize>::empty()
    &&& match direction {
        Direction::Forward => target.subset_of(deps),
        Direction::Backward => deps.subset_of(target),
    }
}

/// Whether place `place` is related to a target in a state.
pub open spec fn related_row(
    direction: Direction,
    state: FlowDomain,
    place: usize,
    target: Set<usize>,
) -> bool {
    place < state.rows@.len() && related(direction, state.row(place as int), target)
}

/// The places that are related to a target in a state.
pub open spec fn related_rows(
    direction: Direction,
    state: FlowDomain,
    target: Set<usize>,
) -> Set<usize> {
    Set::new(|place: usize| related_row(direction, state, place, target))
}

/// Whether a place that is related to a target in a state depends on point
/// `location`.
pub open spec fn hits(
    direction: Direction,
    state: FlowDomain,
    location: usize,
    target: Set<usize>,
) -> bool {
    exists|place: usize| #[trigger]
        related_row(direction, state, place, target) && state.row(place as int).contains(location)
}

/// What visiting point `location`, with `state` after it, makes of the points and
/// the places found so far.
pub open spec fn visited(
    direction: Direction,
    state: FlowDomain,
    location: usize,
    target: Set<usize>,
    found: (Set<usize>, Set<usize>),
) -> (Set<usize>, Set<usize>) {
    (
        if hits(direction, state, location, target) {
            found.0.insert(location)
        } else {
            found.0
        },
        found.1.union(related_rows(direction, state, target)),
    )
}

/// Adds to `output` the places that are related to a target in a state, and point
/// `location` if one of them depends on it.
fn add_related(
    direction: Direction,
    state: &FlowDomain,
    location: usize,
    target: &LocationSet,
    output: &mut (LocationSet, PlaceSet),
)
    requires
        state.has_shape(old(output).1.domain_size(), target.domain_size()),
        old(output).0.domain_size() == target.domain_size(),
        location < target.domain_size(),
    ensures
        (final(output).0@, final(output).1@) == visited(
            direction,
            *state,
            location,
            target@,
            (old(output).0@, old(output).1@),
        ),
        final(output).0.domain_size() == old(output).0.domain_size(),
        final(output).1.domain_size() == old(output).1.domain_size(),
{
    let ghost before = (output.0@, output.1@);
    let ghost places = output.1.domain_size();
    let ghost mut hit = false;
    let mut place: usize = 0;
    while place < state.rows.len()
        invariant
            place <= state.rows@.len(),
            state.has_shape(places, target.domain_size()),
            output.0.domain_size() == target.domain_size(),
            output.1.domain_size() == places,
            location < target.domain_size(),
            hit ==> hits(direction, *state, location, target@),
            forall|p: usize|
                p < place && #[trigger] related_row(direction, *state, p, target@) && state.row(
                    p as int,
                ).contains(location) ==> hit,
            output.0@ == (if hit {
                before.0.insert(location)
            } else {
                before.0
            }),
            forall|p: usize| #[trigger]
                output.1@.contains(p) <==> before.1.contains(p) || p < place && related_row(
                    direction,
                    *state,
                    p,
                    target@,
                ),
        decreases state.rows@.len() - place,
    {
        assert(state.rows@[place as int] matches Some(row) ==> row.domain_size()
            == target.domain_size());
        if let Some(deps) = state.row_set(place) {
            let count = deps.len();
            if count != 0 {
                assert(deps@ != Set::<usize>::empty());
                let is_related = match direction {
                    Direction::Forward => deps.is_superset(target),
                    Direction::Backward => target.is_superset(deps),
                };
                assert(is_related == related_row(direction, *state, place, target@));
                if is_related {
                    output.1.insert(place);
                    if deps.contains(location) {
                        output.0.insert(location);
                        proof {
                            hit = true;
                        }
                    }
                }
            } else {
                assert(deps@ =~= Set::<usize>::empty());
            }
        }
        place = place + 1;
    }
    assert(output.1@ =~= before.1.union(related_rows(direction, *state, target@)));
}

/// Finds, point by point, what is related to some targets.
pub struct DepVisitor {
    direction: Direction,
    target_deps: Vec<LocationSet>,
    outputs: Vec<(LocationSet, PlaceSet)>,
}

impl DepVisitor {
    /// What each target depends on.
    pub closed spec fn targets(&self) -> Seq<LocationSet> {
        self.target_deps@
    }

    /// The points and the places found so far for each target.
    pub closed spec fn found(&self) -> Seq<(LocationSet, PlaceSet)> {
        self.outputs@
    }

    /// The direction of the search.
    pub closed spec fn looks(&self) -> Direction {
        self.direction
    }

    /// Whether the visitor works on the given numbers of places and of points.
    pub open spec fn wf(&self, places: nat, locations: nat) -> bool {
        &&& self.targets().len() == self.found().len()
        &&& forall|k: int|
            0 <= k < self.targets().len() ==> (#[trigger] self.targets()[k]).domain_size()
                == locations
        &&& forall|k: int|
            0 <= k < self.found().len() ==> (#[trigger] self.found()[k]).0.domain_size()
                == locations && self.found()[k].1.domain_size() == places
    }

    /// A visitor for targets that depend on `target_deps`, with what is known to be
    /// related to each beforehand.
    pub fn new(
        direction: Direction,
        target_deps: Vec<LocationSet>,
        outputs: Vec<(LocationSet, PlaceSet)>,
    ) -> (visitor: DepVisitor)
        ensures
            visitor.looks() == direction,
            visitor.targets() == target_deps@,
            visitor.found() == outputs@,
    {
        DepVisitor { direction, target_deps, outputs }
    }

    /// The points and the places that were found for each target.
    pub fn into_outputs(self) -> (outputs: Vec<(LocationSet, PlaceSet)>)
        ensures
            outputs@ == self.found(),
    {
        self.outputs
    }

    /// Whether the visitor can look at `state`, after point `location`.
    pub open spec fn can_visit(&self, state: FlowDomain, location: usize) -> bool {
        exists|places: nat, locations: nat| #[trigger]
            self.wf(places, locations) && state.has_shape(places, locations) && location < locations
    }

    /// Whether `after` is what the visitor becomes when it looks at `state`, after
    /// point `location`.
    pub open spec fn becomes(&self, state: FlowDomain, location: usize, after: DepVisitor) -> bool {
        &&& after.looks() == self.looks()
        &&& after.targets() == self.targets()
        &&& after.found().len() == self.found().len()
        &&& forall|places: nat, locations: nat|
            self.wf(places, locations) ==> #[trigger] after.wf(places, locations)
        &&& forall|k: int|
            #![trigger after.found()[k]]
            0 <= k < after.found().len() ==> (after.found()[k].0@, after.found()[k].1@) == visited(
                self.looks(),
                state,
                location,
                self.targets()[k]@,
                (self.found()[k].0@, self.found()[k].1@),
            )
    }

    /// Looks at the state after point `location`.
    pub fn visit(&mut self, state: &FlowDomain, location: usize)
        requires
            old(self).can_visit(*state, location),
        ensures
            old(self).becomes(*state, location, *final(self)),
    {
        let ghost (places, locations) = choose|places: nat, locations: nat| #[trigger]
            old(self).wf(places, locations) && state.has_shape(places, locations) && location
                < locations;
        let mut k: usize = 0;
        while k < self.target_deps.len()
            invariant
                k <= self.target_deps@.len(),
                state.has_shape(places, locations),
                location < locations,
                old(self).wf(places, locations),
                self.direction == old(self).direction,
                self.target_deps == old(self).target_deps,
                self.outputs@.len() == old(self).outputs@.len(),
                forall|j: int|
                    #![trigger self.outputs@[j]]
                    k <= j < self.outputs@.len() ==> self.outputs@[j] == old(self).outputs@[j],
                forall|j: int|
                    #![trigger self.outputs@[j]]
                    0 <= j < k ==> {
                        &&& (self.outputs@[j].0@, self.outputs@[j].1@) == visited(
                            old(self).direction,
                            *state,
                            location,
                            old(self).target_deps@[j]@,
                            (old(self).outputs@[j].0@, old(self).outputs@[j].1@),
                        )
                        &&& self.outputs@[j].0.domain_size()
                            == old(self).outputs@[j].0.domain_size()
                        &&& self.outputs@[j].1.domain_size()
                            == old(self).outputs@[j].1.domain_size()
                    },
            decreases self.target_deps@.len() - k,
        {
            assert(old(self).targets()[k as int].domain_size() == locations);
            assert(old(self).found()[k as int].0.domain_size() == locations);
            add_related(
                self.direction,
                state,
                location,
                &self.target_deps[k],
                &mut self.outputs[k],
            );
            k = k + 1;
        }
        assert forall|p: nat, l: nat| old(self).wf(p, l) implies #[trigger] self.wf(p, l) by {
            assert forall|j: int| 0 <= j < self.found().len() implies (
            #[trigger] self.found()[j]).0.domain_size() == l && self.found()[j].1.domain_size()
                == p by {
                assert(self.outputs@[j].0.domain_size() == old(self).found()[j].0.domain_size());
            }
        }
    }

    /// Looks at the state after a statement.
    pub fn visit_statement_after_primary_effect(&mut self, state: &FlowDomain, location: usize)
        requires
            old(self).can_visit(*state, location),
        ensures
            old(self).becomes(*state, location, *final(self)),
    {
        self.visit(state, location);
    }

    /// Looks at the state after a terminator.
    pub fn visit_terminator_after_primary_effect(&mut self, state: &FlowDomain, location: usize)
        requires
            old(self).can_visit(*state, location),
        ensures
            old(self).becomes(*state, location, *final(self)),
    {
        self.visit(state, location);
    }
}

/// The results of a flow analysis of a body.
pub struct FlowResults {
    /// The places of the body.
    pub places: PlaceIndices,
    /// The points of the body.
    pub locations: LocationIndices,
    /// For each place, the places that may be the same memory.
    pub aliases: IndexMatrix,
    /// For each place, the pointers inside it.
    pub pointers: Vec<Vec<Pointer>>,
    /// The state after each point.
    pub states: PointTable<FlowDomain>,
    /// The blocks that can be reached from the first one.
    pub reachable: Vec<usize>,
}

impl FlowResults {
    /// Whether `location` is a point of a block that can be reached.
    pub open spec fn is_point(&self, location: Location) -> bool {
        self.states.covers(location) && self.reachable@.contains(location.block)
    }

    /// The points of the blocks that can be reached.
    pub open spec fn points(&self) -> Set<Location> {
        Set::new(|location: Location| self.is_point(location))
    }

    /// Whether the tables fit together.
    pub open spec fn wf(&self) -> bool {
        &&& self.aliases.has_shape(self.places@.len(), self.places@.len())
        &&& self.pointers@.len() == self.places@.len()
        &&& forall|location: Location| #[trigger]
            self.states.covers(location) ==> self.states.value(location).has_shape(
                self.places@.len(),
                self.locations@.len(),
            )
        &&& forall|i: int|
            0 <= i < self.reachable@.len() ==> #[trigger] self.reachable@[i]
                < self.states.blocks@.len()
        &&& forall|location: Location| #[trigger]
            self.is_point(location) ==> self.locations.has(location)
    }

    /// The pointers inside a place.
    pub open spec fn pointers_in(&self, place: PlaceModel) -> Seq<Pointer> {
        self.pointers@[self.places.index_of(place) as int]@
    }

    /// Whether it is known what shares memory with what a pointer points to.
    pub open spec fn pointee_known(&self, pointer: Pointer) -> bool {
        let pointee = pointer.place@.deref();
        self.places.has(pointee) && self.aliases.rows@[self.places.index_of(pointee) as int] is Some
    }

    /// The places that may share memory with what a pointer points to.
    pub open spec fn pointee_aliases(&self, pointer: Pointer) -> Set<usize> {
        self.aliases.row(self.places.index_of(pointer.place@.deref()) as int)
    }

    /// Whether a place at a point can be a target.
    pub open spec fn target_fits(&self, target: (Place, Location)) -> bool {
        &&& self.places.has(target.0@)
        &&& self.states.covers(target.1)
        &&& forall|i: int|
            0 <= i < self.pointers_in(target.0@).len() ==> self.pointee_known(
                #[trigger] self.pointers_in(target.0@)[i],
            )
    }

    /// Whether places at points can be targets.
    pub open spec fn targets_fit(&self, targets: Seq<(Place, Location)>) -> bool {
        forall|i: int| 0 <= i < targets.len() ==> self.target_fits(#[trigger] targets[i])
    }

    /// What the first `count` pointers inside a place lead to.
    pub open spec fn led_to(&self, place: PlaceModel, count: int) -> Set<usize> {
        Set::new(
            |p: usize|
                exists|i: int|
                    0 <= i < count && self.pointee_aliases(
                        #[trigger] self.pointers_in(place)[i],
                    ).contains(p),
        )
    }

    /// A place, and all that the pointers inside it lead to.
    pub open spec fn expanded(&self, place: PlaceModel) -> Set<usize> {
        self.led_to(place, self.pointers_in(place).len() as int).insert(self.places.index_of(place))
    }

    /// The points that some places depend on, after a point.
    pub open spec fn deps_after(&self, places: Set<usize>, location: Location) -> Set<usize> {
        Set::new(
            |l: usize|
                exists|p: usize| #[trigger]
                    places.contains(p) && self.states.value(location).row(p as int).contains(l),
        )
    }

    /// The points that a target depends on.
    pub open spec fn target_deps(&self, target: (Place, Location)) -> Set<usize> {
        self.deps_after(self.expanded(target.0@), target.1)
    }

    /// The places that are related to a target after one of some points.
    pub open spec fn related_places(
        &self,
        seen: Set<Location>,
        direction: Direction,
        target: Set<usize>,
    ) -> Set<usize> {
        Set::new(
            |p: usize|
                exists|l: Location| #[trigger]
                    seen.contains(l) && related_row(direction, self.states.value(l), p, target),
        )
    }

    /// The points, among some, on which a place depends that is related to a target
    /// after the point.
    pub open spec fn related_locations(
        &self,
        seen: Set<Location>,
        direction: Direction,
        target: Set<usize>,
    ) -> Set<usize> {
        Set::new(
            |n: usize|
                exists|l: Location| #[trigger]
                    seen.contains(l) && self.locations.index_of(l) == n && hits(
                        direction,
                        self.states.value(l),
                        n,
                        target,
                    ),
        )
    }

    /// The places among the dependencies of a target.
    pub open spec fn dep_places(
        &self,
        target: (Place, Location),
        direction: Direction,
    ) -> Set<usize> {
        self.expanded(target.0@).union(
            self.related_places(self.points(), direction, self.target_deps(target)),
        )
    }

    /// The points among the dependencies of a target.
    pub open spec fn dep_locations(
        &self,
        target: (Place, Location),
        direction: Direction,
    ) -> Set<usize> {
        self.related_locations(self.points(), direction, self.target_deps(target))
    }

    /// A place, and all that the pointers inside it lead to.
    pub fn expand(&self, target: &(Place, Location)) -> (places: PlaceSet)
        requires
            self.wf(),
            self.target_fits(*target),
        ensures
            places@ == self.expanded(target.0@),
            places.domain_size() == self.places@.len(),
    {
        let index = self.places.index(&target.0);
        let mut places = self.places.empty_set();
        places.insert(index);
        let pointers = &self.pointers[index];
        assert(self.led_to(target.0@, 0) =~= Set::<usize>::empty());
        let mut i: usize = 0;
        while i < pointers.len()
            invariant
                i <= pointers@.len(),
                self.wf(),
                self.target_fits(*target),
                index == self.places.index_of(target.0@),
                pointers@ == self.pointers_in(target.0@),
                places.domain_size() == self.places@.len(),
                places@ == self.led_to(target.0@, i as int).insert(index),
            decreases pointers@.len() - i,
        {
            let pointer = &pointers[i];
            assert(self.pointee_known(self.pointers_in(target.0@)[i as int]));
            let pointee = pointer.place.deref();
            let pointee_index = self.places.index(&pointee);
            if let Some(row) = self.aliases.row_set(pointee_index) {
                places.union(row);
            }
            assert(self.led_to(target.0@, i + 1) =~= self.led_to(target.0@, i as int).union(
                self.pointee_aliases(*pointer),
            )) by {
                assert(self.pointers_in(target.0@)[i as int] == *pointer);
            }
            i = i + 1;
            assert(places@ =~= self.led_to(target.0@, i as int).insert(index));
        }
        places
    }

    /// The points that some places depend on, after a point.
    pub fn locations_after(&self, places: &PlaceSet, location: Location) -> (locations: LocationSet)
        requires
            self.wf(),
            self.states.covers(location),
            places.domain_size() == self.places@.len(),
        ensures
            locations@ == self.deps_after(places@, location),
            locations.domain_size() == self.locations@.len(),
    {
        let state = self.states.at(location);
        let mut locations = self.locations.empty_set();
        let mut p: usize = 0;
        while p < state.rows.len()
            invariant
                p <= state.rows@.len(),
                self.wf(),
                self.states.covers(location),
                *state == self.states.value(location),
                state.has_shape(self.places@.len(), self.locations@.len()),
                places.domain_size() == self.places@.len(),
                locations.domain_size() == self.locations@.len(),
                forall|l: usize| #[trigger]
                    locations@.contains(l) <==> exists|q: usize|
                        q < p && #[trigger] places@.contains(q) && state.row(q as int).contains(l),
            decreases state.rows@.len() - p,
        {
            let ghost before = locations@;
            if places.contains(p) {
                assert(state.rows@[p as int] matches Some(row) ==> row.domain_size()
                    == self.locations@.len());
                if let Some(row) = state.row_set(p) {
                    locations.union(row);
                }
                assert(locations@ =~= before.union(state.row(p as int)));
                assert(places@.contains(p));
            } else {
                assert(!places@.contains(p));
            }
            p = p + 1;
            assert forall|l: usize| #[trigger] locations@.contains(l) <==> exists|q: usize|
                q < p && #[trigger] places@.contains(q) && state.row(q as int).contains(l) by {
                if before.contains(l) {
                    let q = choose|q: usize|
                        q < p - 1 && #[trigger] places@.contains(q) && state.row(
                            q as int,
                        ).contains(l);
                    assert(places@.contains(q));
                }
            }
        }
        assert forall|l: usize| locations@.contains(l) <==> self.deps_after(
            places@,
            location,
        ).contains(l) by {
            if self.deps_after(places@, location).contains(l) {
                let q = choose|q: usize| #[trigger]
                    places@.contains(q) && state.row(q as int).contains(l);
                places.lemma_in_domain(q);
                assert(q < p && places@.contains(q));
            }
        }
        assert(locations@ =~= self.deps_after(places@, location));
        locations
    }

    /// What visiting one more point adds.
    proof fn lemma_one_more_point(
        &self,
        seen: Set<Location>,
        location: Location,
        direction: Direction,
        target: Set<usize>,
        places: Set<usize>,
    )
        ensures
            ({
                let before = (
                    self.related_locations(seen, direction, target),
                    places.union(self.related_places(seen, direction, target)),
                );
                let after = (
                    self.related_locations(seen.insert(location), direction, target),
                    places.union(self.related_places(seen.insert(location), direction, target)),
                );
                after == visited(
                    direction,
                    self.states.value(location),
                    self.locations.index_of(location),
                    target,
                    before,
                )
            }),
    {
        let more = seen.insert(location);
        let state = self.states.value(location);
        let index = self.locations.index_of(location);
        assert forall|p: usize| self.related_places(more, direction, target).contains(p)
            <==> self.related_places(seen, direction, target).contains(p) || related_row(
            direction,
            state,
            p,
            target,
        ) by {
            if self.related_places(seen, direction, target).contains(p) {
                let l = choose|l: Location| #[trigger]
                    seen.contains(l) && related_row(direction, self.states.value(l), p, target);
                assert(more.contains(l));
            }
            if related_row(direction, state, p, target) {
                assert(more.contains(location));
            }
            if self.related_places(more, direction, target).contains(p) {
                let l = choose|l: Location| #[trigger]
                    more.contains(l) && related_row(direction, self.states.value(l), p, target);
                assert(l == location || seen.contains(l));
            }
        }
        assert forall|n: usize| self.related_locations(more, direction, target).contains(n)
            <==> self.related_locations(seen, direction, target).contains(n) || n == index && hits(
            direction,
            state,
            index,
            target,
        ) by {
            if self.related_locations(seen, direction, target).contains(n) {
                let l = choose|l: Location| #[trigger]
                    seen.contains(l) && self.locations.index_of(l) == n && hits(
                        direction,
                        self.states.value(l),
                        n,
                        target,
                    );
                assert(more.contains(l));
            }
            if n == index && hits(direction, state, index, target) {
                assert(more.contains(location));
            }
            if self.related_locations(more, direction, target).contains(n) {
                let l = choose|l: Location| #[trigger]
                    more.contains(l) && self.locations.index_of(l) == n && hits(
                        direction,
                        self.states.value(l),
                        n,
                        target,
                    );
                assert(l == location || seen.contains(l));
            }
        }
        let before = (
            self.related_locations(seen, direction, target),
            places.union(self.related_places(seen, direction, target)),
        );
        let grown = visited(direction, state, index, target, before);
        assert(self.related_locations(more, direction, target) =~= grown.0);
        assert(places.union(self.related_places(more, direction, target)) =~= grown.1);
    }

    /// Whether a visitor has seen some points, having begun with some places for each
    /// target.
    spec fn has_seen(
        &self,
        visitor: DepVisitor,
        seen: Set<Location>,
        begun: Seq<Set<usize>>,
    ) -> bool {
        &&& visitor.wf(self.places@.len(), self.locations@.len())
        &&& visitor.found().len() == begun.len()
        &&& forall|k: int|
            #![trigger visitor.found()[k]]
            0 <= k < begun.len() ==> {
                &&& visitor.found()[k].0@ == self.related_locations(
                    seen,
                    visitor.looks(),
                    visitor.targets()[k]@,
                )
                &&& visitor.found()[k].1@ == begun[k].union(
                    self.related_places(seen, visitor.looks(), visitor.targets()[k]@),
                )
            }
    }

    /// Whether the tables fit together.
    pub fn tables_fit(&self) -> (holds: bool)
        ensures
            holds == self.wf(),
    {
        let places = self.places.len();
        let locations = self.locations.len();
        if !self.aliases.is_shaped(places, places) || self.pointers.len() != places {
            return false;
        }
        let mut b: usize = 0;
        while b < self.states.blocks.len()
            invariant
                b <= self.states.blocks@.len(),
                places == self.places@.len(),
                locations == self.locations@.len(),
                forall|l: Location| #[trigger]
                    self.states.covers(l) && l.block < b ==> self.states.value(l).has_shape(
                        places as nat,
                        locations as nat,
                    ),
            decreases self.states.blocks@.len() - b,
        {
            let mut i: usize = 0;
            while i < self.states.blocks[b].len()
                invariant
                    b < self.states.blocks@.len(),
                    i <= self.states.blocks@[b as int]@.len(),
                    places == self.places@.len(),
                    locations == self.locations@.len(),
                    forall|l: Location| #[trigger]
                        self.states.covers(l) && (l.block < b || l.block == b && l.statement_index
                            < i) ==> self.states.value(l).has_shape(
                            places as nat,
                            locations as nat,
                        ),
                decreases self.states.blocks@[b as int]@.len() - i,
            {
                let location = Location { block: b, statement_index: i };
                if !self.states.at(location).is_shaped(places, locations) {
                    assert(self.states.covers(location));
                    return false;
                }
                i = i + 1;
            }
            b = b + 1;
        }
        let mut r: usize = 0;
        while r < self.reachable.len()
            invariant
                r <= self.reachable@.len(),
                forall|k: int|
                    0 <= k < r ==> #[trigger] self.reachable@[k] < self.states.blocks@.len(),
                forall|l: Location, k: int|
                    0 <= k < r && #[trigger] self.reachable@[k] == l.block
                        && #[trigger] self.states.covers(l) ==> self.locations.has(l),
            decreases self.reachable@.len() - r,
        {
            let block = self.reachable[r];
            if block >= self.states.blocks.len() {
                return false;
            }
            let mut i: usize = 0;
            while i < self.states.blocks[block].len()
                invariant
                    r < self.reachable@.len(),
                    block == self.reachable@[r as int],
                    block < self.states.blocks@.len(),
                    i <= self.states.blocks@[block as int]@.len(),
                    forall|l: Location| #[trigger]
                        self.states.covers(l) && l.block == block && l.statement_index < i
                            ==> self.locations.has(l),
                decreases self.states.blocks@[block as int]@.len() - i,
            {
                let location = Location { block, statement_index: i };
                if self.locations.find(location).is_none() {
                    assert(self.is_point(location));
                    return false;
                }
                i = i + 1;
            }
            r = r + 1;
        }
        assert forall|l: Location| #[trigger] self.is_point(l) implies self.locations.has(l) by {
            let k = choose|k: int| 0 <= k < self.reachable@.len() && self.reachable@[k] == l.block;
            assert(self.reachable@[k] == l.block);
        }
        true
    }

    /// Whether places at points can be targets.
    pub fn accepts(&self, targets: &Vec<(Place, Location)>) -> (holds: bool)
        requires
            self.wf(),
        ensures
            holds == self.targets_fit(targets@),
    {
        let mut k: usize = 0;
        while k < targets.len()
            invariant
                k <= targets@.len(),
                self.wf(),
                forall|j: int| 0 <= j < k ==> self.target_fits(#[trigger] targets@[j]),
            decreases targets@.len() - k,
        {
            if !self.accepts_target(&targets[k]) {
                assert(!self.target_fits(targets@[k as int]));
                return false;
            }
            k = k + 1;
        }
        true
    }

    /// Whether a place at a point can be a target.
    fn accepts_target(&self, target: &(Place, Location)) -> (holds: bool)
        requires
            self.wf(),
        ensures
            holds == self.target_fits(*target),
    {
        if !self.states.has(target.1) {
            return false;
        }
        match self.places.find(&target.0) {
            None => false,
            Some(index) => {
                let pointers = &self.pointers[index];
                let mut i: usize = 0;
                while i < pointers.len()
                    invariant
                        i <= pointers@.len(),
                        self.wf(),
                        pointers@ == self.pointers_in(target.0@),
                        forall|j: int|
                            0 <= j < i ==> self.pointee_known(
                                #[trigger] self.pointers_in(target.0@)[j],
                            ),
                    decreases pointers@.len() - i,
                {
                    let pointee = pointers[i].place.deref();
                    let known = match self.places.find(&pointee) {
                        None => false,
                        Some(p) => self.aliases.row_set(p).is_some(),
                    };
                    assert(known == self.pointee_known(self.pointers_in(target.0@)[i as int]));
                    if !known {
                        return false;
                    }
                    i = i + 1;
                }
                true
            },
        }
    }

    /// Looks at the state after every point of one block.
    fn visit_block(
        &self,
        visitor: &mut DepVisitor,
        block: usize,
        Ghost(seen): Ghost<Set<Location>>,
        Ghost(begun): Ghost<Seq<Set<usize>>>,
    )
        requires
            self.wf(),
            self.reachable@.contains(block),
            self.has_seen(*old(visitor), seen, begun),
        ensures
            final(visitor).looks() == old(visitor).looks(),
            final(visitor).targets() == old(visitor).targets(),
            self.has_seen(
                *final(visitor),
                seen.union(
                    Set::new(|l: Location| l.block == block && self.states.covers(l)),
                ),
                begun,
            ),
    {
        let ghost mut now = seen;
        let states = &self.states.blocks[block];
        let mut i: usize = 0;
        while i < states.len()
            invariant
                i <= states@.len(),
                self.wf(),
                block < self.states.blocks@.len(),
                states@ == self.states.blocks@[block as int]@,
                self.reachable@.contains(block),
                visitor.looks() == old(visitor).looks(),
                visitor.targets() == old(visitor).targets(),
                self.has_seen(*visitor, now, begun),
                forall|l: Location| #[trigger]
                    now.contains(l) <==> seen.contains(l) || l.block == block && l.statement_index
                        < i,
            decreases states@.len() - i,
        {
            let location = Location { block, statement_index: i };
            assert(self.states.covers(location));
            assert(self.is_point(location));
            let index = self.locations.index(location);
            let ghost before = *visitor;
            assert(visitor.wf(self.places@.len(), self.locations@.len()));
            if i + 1 < states.len() {
                visitor.visit_statement_after_primary_effect(&states[i], index);
            } else {
                visitor.visit_terminator_after_primary_effect(&states[i], index);
            }
            proof {
                let state = self.states.value(location);
                assert(before.becomes(state, index, *visitor));
                assert forall|k: int|
                    #![trigger visitor.found()[k]]
                    0 <= k < begun.len() implies {
                    &&& visitor.found()[k].0@ == self.related_locations(
                        now.insert(location),
                        visitor.looks(),
                        visitor.targets()[k]@,
                    )
                    &&& visitor.found()[k].1@ == begun[k].union(
                        self.related_places(
                            now.insert(location),
                            visitor.looks(),
                            visitor.targets()[k]@,
                        ),
                    )
                } by {
                    let earlier = before.found()[k];
                    self.lemma_one_more_point(
                        now,
                        location,
                        before.looks(),
                        before.targets()[k]@,
                        begun[k],
                    );
                }
                now = now.insert(location);
            }
            i = i + 1;
        }
        assert(now =~= seen.union(
            Set::new(|l: Location| l.block == block && self.states.covers(l)),
        ));
    }

    /// Looks at the state after every point of the blocks that can be reached.
    fn visit_reachable_with(&self, visitor: &mut DepVisitor, Ghost(begun): Ghost<Seq<Set<usize>>>)
        requires
            self.wf(),
            self.has_seen(*old(visitor), Set::empty(), begun),
        ensures
            final(visitor).looks() == old(visitor).looks(),
            final(visitor).targets() == old(visitor).targets(),
            self.has_seen(*final(visitor), self.points(), begun),
    {
        let ghost mut seen = Set::<Location>::empty();
        let mut i: usize = 0;
        while i < self.reachable.len()
            invariant
                i <= self.reachable@.len(),
                self.wf(),
                visitor.looks() == old(visitor).looks(),
                visitor.targets() == old(visitor).targets(),
                self.has_seen(*visitor, seen, begun),
                forall|l: Location| #[trigger]
                    seen.contains(l) <==> self.states.covers(l) && exists|j: int|
                        0 <= j < i && #[trigger] self.reachable@[j] == l.block,
            decreases self.reachable@.len() - i,
        {
            let block = self.reachable[i];
            assert(self.reachable@.contains(block));
            self.visit_block(visitor, block, Ghost(seen), Ghost(begun));
            proof {
                seen =
                seen.union(Set::new(|l: Location| l.block == block && self.states.covers(l)));
            }
            i = i + 1;
            assert(self.reachable@[i - 1] == block);
        }
        assert(seen =~= self.points());
    }
}

/// The dependencies of each of some targets: the points and the places.
pub(crate) fn dependencies_of(
    results: &FlowResults,
    targets: &Vec<(Place, Location)>,
    direction: Direction,
) -> (deps: Vec<(LocationSet, PlaceSet)>)
    requires
        results.wf(),
        results.targets_fit(targets@),
    ensures
        deps@.len() == targets@.len(),
        forall|k: int|
            #![trigger deps@[k]]
            0 <= k < deps@.len() ==> {
                &&& deps@[k].0@ == results.dep_locations(targets@[k], direction)
                &&& deps@[k].1@ == results.dep_places(targets@[k], direction)
                &&& deps@[k].0.domain_size() == results.locations@.len()
                &&& deps@[k].1.domain_size() == results.places@.len()
            },
{
    let ghost begun = targets@.map_values(|t: (Place, Location)| results.expanded(t.0@));
    let mut target_deps: Vec<LocationSet> = Vec::new();
    let mut outputs: Vec<(LocationSet, PlaceSet)> = Vec::new();
    let mut k: usize = 0;
    while k < targets.len()
        invariant
            k <= targets@.len(),
            results.wf(),
            results.targets_fit(targets@),
            target_deps@.len() == k,
            outputs@.len() == k,
            forall|j: int|
                #![trigger target_deps@[j]]
                0 <= j < k ==> target_deps@[j]@ == results.target_deps(targets@[j])
                    && target_deps@[j].domain_size() == results.locations@.len(),
            forall|j: int|
                #![trigger outputs@[j]]
                0 <= j < k ==> {
                    &&& outputs@[j].0@ == Set::<usize>::empty()
                    &&& outputs@[j].1@ == results.expanded(targets@[j].0@)
                    &&& outputs@[j].0.domain_size() == results.locations@.len()
                    &&& outputs@[j].1.domain_size() == results.places@.len()
                },
        decreases targets@.len() - k,
    {
        let target = &targets[k];
        assert(results.target_fits(targets@[k as int]));
        let places = results.expand(target);
        let deps = results.locations_after(&places, target.1);
        target_deps.push(deps);
        outputs.push((results.locations.empty_set(), places));
        k = k + 1;
    }
    let mut visitor = DepVisitor::new(direction, target_deps, outputs);
    proof {
        assert forall|j: int|
            #![trigger visitor.found()[j]]
            0 <= j < begun.len() implies {
            &&& visitor.found()[j].0@ == results.related_locations(
                Set::empty(),
                visitor.looks(),
                visitor.targets()[j]@,
            )
            &&& visitor.found()[j].1@ == begun[j].union(
                results.related_places(Set::empty(), visitor.looks(), visitor.targets()[j]@),
            )
        } by {
            assert(visitor.found()[j].0@ =~= results.related_locations(
                Set::empty(),
                visitor.looks(),
                visitor.targets()[j]@,
            ));
            assert(visitor.found()[j].1@ =~= begun[j].union(
                results.related_places(Set::empty(), visitor.looks(), visitor.targets()[j]@),
            ));
        }
    }
    results.visit_reachable_with(&mut visitor, Ghost(begun));
    assert(forall|j: int|
        0 <= j < targets@.len() ==> (#[trigger] visitor.targets()[j])@ == results.target_deps(
            targets@[j],
        ));
    visitor.into_outputs()
}

/// The dependencies of each of some targets: the points and the places.
pub fn compute_dependencies(
    results: &FlowResults,
    targets: Vec<(Place, Location)>,
    direction: Direction,
) -> (deps: Vec<(LocationSet, PlaceSet)>)
    requires
        results.wf(),
        results.targets_fit(targets@),
    ensures
        deps@.len() == targets@.len(),
        forall|k: int|
            #![trigger deps@[k]]
            0 <= k < deps@.len() ==> {
                &&& deps@[k].0@ == results.dep_locations(targets@[k], direction)
                &&& deps@[k].1@ == results.dep_places(targets@[k], direction)
                &&& deps@[k].0.domain_size() == results.locations@.len()
                &&& deps@[k].1.domain_size() == results.places@.len()
            },
{
    dependencies_of(results, &targets, direction)
}

} // verus!
