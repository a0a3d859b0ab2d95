//! What holds of dependencies.

use super::dependencies::{self, Direction, FlowDomain, FlowResults};
use crate::mir::{Location, Place, PlaceElem, PlaceModel};
use vstd::prelude::*;

verus! {

/// A target's own place, and all that the pointers inside it lead to, are among
/// the places that it depends on.
pub proof fn target_is_among_its_dependencies(
    results: &FlowResults,
    target: (Place, Location),
    direction: Direction,
)
    ensures
        results.dep_places(target, direction).contains(results.places.index_of(target.0@)),
        results.expanded(target.0@).subset_of(results.dep_places(target, direction)),
{
}

/// Every point among the dependencies is a point of the body that can be reached,
/// and a place that depends on it is among the dependencies too.
pub proof fn dependency_is_reachable(
    results: &FlowResults,
    target: (Place, Location),
    direction: Direction,
    n: usize,
)
    requires
        results.dep_locations(target, direction).contains(n),
    ensures
        exists|l: Location, place: usize|
            #![trigger results.is_point(l), results.dep_places(target, direction).contains(place)]
            results.is_point(l) && results.locations.index_of(l) == n && results.dep_places(
                target,
                direction,
            ).contains(place) && results.states.value(l).row(place as int).contains(n),
{
    let deps = results.target_deps(target);
    let points = results.points();
    let l = choose|l: Location| #[trigger]
        points.contains(l) && results.locations.index_of(l) == n && dependencies::hits(
            direction,
            results.states.value(l),
            n,
            deps,
        );
    let state = results.states.value(l);
    let place = choose|place: usize| #[trigger]
        dependencies::related_row(direction, state, place, deps) && state.row(
            place as int,
        ).contains(n);
    assert(points.contains(l) && dependencies::related_row(direction, state, place, deps));
    assert(results.related_places(points, direction, deps).contains(place));
    assert(results.is_point(l));
    assert(results.dep_places(target, direction).contains(place));
}

/// Backward, a target depends on nothing but what its place depends on.
pub proof fn backward_dependencies_are_of_the_target(
    results: &FlowResults,
    target: (Place, Location),
)
    ensures
        results.dep_locations(target, Direction::Backward).subset_of(results.target_deps(target)),
{
    let deps = results.target_deps(target);
    let points = results.points();
    assert forall|n: usize| #[trigger]
        results.dep_locations(target, Direction::Backward).contains(n) implies deps.contains(n) by {
        let l = choose|l: Location| #[trigger]
            points.contains(l) && results.locations.index_of(l) == n && dependencies::hits(
                Direction::Backward,
                results.states.value(l),
                n,
                deps,
            );
        let state = results.states.value(l);
        let place = choose|place: usize| #[trigger]
            dependencies::related_row(Direction::Backward, state, place, deps) && state.row(
                place as int,
            ).contains(n);
        assert(state.row(place as int).subset_of(deps));
    }
}

/// The two directions are each other's converse: `a` is found looking backward
/// from `b` if and only if `b` is found looking forward from `a`, if both depend on
/// anything.
pub proof fn directions_are_converse(a: Set<usize>, b: Set<usize>)
    requires
        a != Set::<usize>::empty(),
        b != Set::<usize>::empty(),
    ensures
        dependencies::related(Direction::Backward, a, b) <==> dependencies::related(
            Direction::Forward,
            b,
            a,
        ),
{
}

/// What depends on more is related to more looking backward, and to less looking
/// forward.
pub proof fn more_dependencies_find_more_backward(
    results: &FlowResults,
    small: Set<usize>,
    large: Set<usize>,
    seen: Set<Location>,
)
    requires
        small.subset_of(large),
    ensures
        results.related_places(seen, Direction::Backward, small).subset_of(
            results.related_places(seen, Direction::Backward, large),
        ),
        results.related_locations(seen, Direction::Backward, small).subset_of(
            results.related_locations(seen, Direction::Backward, large),
        ),
        results.related_places(seen, Direction::Forward, large).subset_of(
            results.related_places(seen, Direction::Forward, small),
        ),
        results.related_locations(seen, Direction::Forward, large).subset_of(
            results.related_locations(seen, Direction::Forward, small),
        ),
{
    lemma_finds_more(results, Direction::Backward, small, large, seen);
    lemma_finds_more(results, Direction::Forward, large, small, seen);
}

/// Where what relates to one target relates to another, the other finds as much.
proof fn lemma_finds_more(
    results: &FlowResults,
    direction: Direction,
    less: Set<usize>,
    more: Set<usize>,
    seen: Set<Location>,
)
    requires
        forall|deps: Set<usize>| #[trigger]
            dependencies::related(direction, deps, less) ==> dependencies::related(
                direction,
                deps,
                more,
            ),
    ensures
        results.related_places(seen, direction, less).subset_of(
            results.related_places(seen, direction, more),
        ),
        results.related_locations(seen, direction, less).subset_of(
            results.related_locations(seen, direction, more),
        ),
{
    assert forall|p: usize| #[trigger]
        results.related_places(seen, direction, less).contains(p) implies results.related_places(
        seen,
        direction,
        more,
    ).contains(p) by {
        let l = choose|l: Location| #[trigger]
            seen.contains(l) && dependencies::related_row(
                direction,
                results.states.value(l),
                p,
                less,
            );
        let state = results.states.value(l);
        assert(seen.contains(l) && dependencies::related_row(direction, state, p, more));
    }
    assert forall|n: usize| #[trigger]
        results.related_locations(seen, direction, less).contains(
            n,
        ) implies results.related_locations(seen, direction, more).contains(n) by {
        let l = choose|l: Location| #[trigger]
            seen.contains(l) && results.locations.index_of(l) == n && dependencies::hits(
                direction,
                results.states.value(l),
                n,
                less,
            );
        let state = results.states.value(l);
        let p = choose|p: usize| #[trigger]
            dependencies::related_row(direction, state, p, less) && state.row(p as int).contains(n);
        assert(dependencies::related_row(direction, state, p, more));
        assert(dependencies::hits(direction, state, n, more));
        assert(seen.contains(l));
    }
}

/// Visiting a point only ever adds to what was found, a second visit adds nothing,
/// and the order of visits does not matter.
pub proof fn visits_accumulate(
    direction: Direction,
    state: FlowDomain,
    location: usize,
    other_state: FlowDomain,
    other_location: usize,
    target: Set<usize>,
    found: (Set<usize>, Set<usize>),
)
    ensures
        ({
            let once = dependencies::visited(direction, state, location, target, found);
            let other = dependencies::visited(
                direction,
                other_state,
                other_location,
                target,
                found,
            );
            &&& found.0.subset_of(once.0) && found.1.subset_of(once.1)
            &&& dependencies::visited(direction, state, location, target, once) == once
            &&& dependencies::visited(direction, other_state, other_location, target, once)
                == dependencies::visited(direction, state, location, target, other)
        }),
{
    let once = dependencies::visited(direction, state, location, target, found);
    let other = dependencies::visited(direction, other_state, other_location, target, found);
    let again = dependencies::visited(direction, state, location, target, once);
    assert(again.0 =~= once.0);
    assert(again.1 =~= once.1);
    let one_way = dependencies::visited(direction, other_state, other_location, target, once);
    let other_way = dependencies::visited(direction, state, location, target, other);
    assert(one_way.0 =~= other_way.0);
    assert(one_way.1 =~= other_way.1);
}

/// Looking forward, a place is related to a target if it depends on anything and on
/// each point that the target depends on; looking backward, if it depends on
/// anything and the target depends on each point that it depends on.
pub proof fn related_point_by_point(deps: Set<usize>, target: Set<usize>)
    ensures
        dependencies::related(Direction::Forward, deps, target) <==> (exists|d: usize|
            deps.contains(d)) && forall|t: usize| #[trigger]
            target.contains(t) ==> deps.contains(t),
        dependencies::related(Direction::Backward, deps, target) <==> (exists|d: usize|
            deps.contains(d)) && forall|d: usize| #[trigger]
            deps.contains(d) ==> target.contains(d),
{
    if forall|d: usize| !deps.contains(d) {
        assert(deps =~= Set::<usize>::empty());
    }
    if exists|d: usize| deps.contains(d) {
        let d = choose|d: usize| deps.contains(d);
        assert(!Set::<usize>::empty().contains(d));
    }
}

/// For every pointer inside a target's place, shared or mutable, each place that may
/// share memory with what it points to is among the places of the target's
/// dependencies, and what that place depends on after the target's point is part of
/// what the target depends on.
pub proof fn target_takes_in_what_its_pointers_lead_to(
    results: &FlowResults,
    target: (Place, Location),
    direction: Direction,
    i: int,
    shared: usize,
    location: usize,
)
    requires
        ({
            let pointers = results.pointers@[results.places.index_of(target.0@) as int]@;
            &&& 0 <= i < pointers.len()
            &&& ({
                let pointee = PlaceModel {
                    local: pointers[i].place.local,
                    projection: pointers[i].place.projection@.push(PlaceElem::Deref),
                };
                results.aliases.rows@[results.places.index_of(pointee) as int] matches Some(row)
                    && row@.contains(shared)
            })
        }),
    ensures
        results.expanded(target.0@).contains(shared),
        results.dep_places(target, direction).contains(shared),
        row_holds(results.states.value(target.1), shared, location) ==> results.target_deps(
            target,
        ).contains(location),
{
    let pointer = results.pointers_in(target.0@)[i];
    let pointee = PlaceModel {
        local: pointer.place.local,
        projection: pointer.place.projection@.push(PlaceElem::Deref),
    };
    assert(pointer.place@.deref() =~= pointee);
    assert(results.pointee_aliases(pointer).contains(shared));
    assert(results.expanded(target.0@).contains(shared));
}

/// A numbered place at a point with a state can be a target if it is known of each
/// pointer inside it, shared or mutable, what may share memory with what it points
/// to.
pub proof fn place_with_known_pointees_can_be_a_target(
    results: &FlowResults,
    target: (Place, Location),
)
    requires
        results.places.has(target.0@),
        target.1.block < results.states.blocks@.len(),
        target.1.statement_index < results.states.blocks@[target.1.block as int]@.len(),
        forall|i: int|
            0 <= i < results.pointers@[results.places.index_of(target.0@) as int]@.len() ==> {
                let pointee = (#[trigger] results.pointers@[results.places.index_of(
                    target.0@,
                ) as int]@[i]).place@.deref();
                results.places.has(pointee) && results.aliases.rows@[results.places.index_of(
                    pointee,
                ) as int] is Some
            },
    ensures
        results.target_fits(target),
{
    assert forall|i: int|
        0 <= i < results.pointers_in(target.0@).len() implies results.pointee_known(
        #[trigger] results.pointers_in(target.0@)[i],
    ) by {
        assert(results.pointers@[results.places.index_of(target.0@) as int]@[i]
            == results.pointers_in(target.0@)[i]);
    }
}

/// The tables of a flow analysis fit together if each speaks of the numbered places
/// and points and no others, and every point that can be reached is numbered.
pub proof fn numbered_results_fit(results: &FlowResults)
    requires
        results.aliases.rows@.len() == results.places@.len(),
        forall|p: int|
            0 <= p < results.aliases.rows@.len() ==> (#[trigger] results.aliases.rows@[p] matches
                Some(row) ==> row.domain_size() == results.places@.len()),
        results.pointers@.len() == results.places@.len(),
        forall|b: int, i: int|
            0 <= b < results.states.blocks@.len() && 0 <= i < results.states.blocks@[b]@.len()
                ==> (#[trigger] results.states.blocks@[b]@[i]).rows@.len() == results.places@.len(),
        forall|b: int, i: int, p: int|
            0 <= b < results.states.blocks@.len() && 0 <= i < results.states.blocks@[b]@.len()
                && 0 <= p < results.places@.len() ==> (
            #[trigger] results.states.blocks@[b]@[i].rows@[p] matches Some(row)
                ==> row.domain_size() == results.locations@.len()),
        forall|r: int|
            0 <= r < results.reachable@.len() ==> #[trigger] results.reachable@[r]
                < results.states.blocks@.len(),
        forall|r: int, l: Location|
            0 <= r < results.reachable@.len() && l.block == #[trigger] results.reachable@[r]
                && l.statement_index < results.states.blocks@[l.block as int]@.len()
                ==> #[trigger] results.locations.has(l),
    ensures
        results.wf(),
{
    assert forall|l: Location| #[trigger] results.states.covers(l) implies results.states.value(
        l,
    ).has_shape(results.places@.len(), results.locations@.len()) by {
        let state = results.states.blocks@[l.block as int]@[l.statement_index as int];
        assert(state.rows@.len() == results.places@.len());
        assert forall|p: int| 0 <= p < state.rows@.len() implies (
        #[trigger] state.rows@[p] matches Some(row) ==> row.domain_size()
            == results.locations@.len()) by {
            let row = results.states.blocks@[l.block as int]@[l.statement_index as int].rows@[p];
        }
    }
    assert forall|l: Location| #[trigger] results.is_point(l) implies results.locations.has(l) by {
        let r = choose|r: int|
            0 <= r < results.reachable@.len() && results.reachable@[r] == l.block;
        assert(results.reachable@[r] == l.block);
    }
}

/// Whether a place depends on a point in a state.
pub open spec fn row_holds(state: FlowDomain, place: usize, location: usize) -> bool {
    state.rows@[place as int] matches Some(row) && row@.contains(location)
}

/// A target's own place is among those that it stands for, and what it depends on
/// after the target's point is part of what the target depends on.
pub proof fn target_depends_on_what_its_place_depends_on(
    results: &FlowResults,
    target: (Place, Location),
    location: usize,
)
    requires
        row_holds(
            results.states.value(target.1),
            results.places.index_of(target.0@),
            location,
        ),
    ensures
        results.target_deps(target).contains(location),
{
    assert(results.expanded(target.0@).contains(results.places.index_of(target.0@)));
}

/// A target stands for no places but its own and those that may share memory with
/// what a pointer inside it points to, and depends on nothing but what one of these
/// depends on after its point.
pub proof fn target_takes_in_nothing_else(
    results: &FlowResults,
    target: (Place, Location),
    place: usize,
    location: usize,
)
    ensures
        results.expanded(target.0@).contains(place) ==> place == results.places.index_of(target.0@)
            || exists|i: int|
            0 <= i < results.pointers@[results.places.index_of(target.0@) as int]@.len() && (
            results.aliases.rows@[results.places.index_of(
                (#[trigger] results.pointers@[results.places.index_of(
                    target.0@,
                ) as int]@[i]).place@.deref(),
            ) as int] matches Some(row) && row@.contains(place)),
        results.target_deps(target).contains(location) ==> exists|p: usize| #[trigger]
            results.expanded(target.0@).contains(p) && row_holds(
                results.states.value(target.1),
                p,
                location,
            ),
{
    if results.expanded(target.0@).contains(place) && place != results.places.index_of(target.0@) {
        let pointers = results.pointers_in(target.0@);
        let i = choose|i: int|
            0 <= i < pointers.len() && results.pointee_aliases(
                #[trigger] pointers[i],
            ).contains(place);
        assert(results.pointers@[results.places.index_of(target.0@) as int]@[i] == pointers[i]);
    }
    if results.target_deps(target).contains(location) {
        let places = results.expanded(target.0@);
        let p = choose|p: usize| #[trigger]
            places.contains(p) && results.states.value(target.1).row(p as int).contains(location);
        assert(results.expanded(target.0@).contains(p));
    }
}

/// Whether a point of a block that can be reached has `state` after it.
pub open spec fn is_after(results: &FlowResults, location: Location, state: FlowDomain) -> bool {
    &&& results.reachable@.contains(location.block)
    &&& location.block < results.states.blocks@.len()
    &&& location.statement_index < results.states.blocks@[location.block as int]@.len()
    &&& results.states.blocks@[location.block as int]@[location.statement_index as int] == state
}

/// Looking backward, a place that depends on something, and on nothing that the
/// target does not depend on, after a point that can be reached, is among the
/// dependencies. So is the point, if the place depends on it.
pub proof fn backward_finds_what_the_target_is_made_of(
    results: &FlowResults,
    target: (Place, Location),
    location: Location,
    state: FlowDomain,
    place: usize,
    dep: usize,
)
    requires
        is_after(results, location, state),
        place < state.rows@.len(),
        row_holds(state, place, dep),
        forall|d: usize| #[trigger]
            row_holds(state, place, d) ==> results.target_deps(target).contains(d),
    ensures
        results.dep_places(target, Direction::Backward).contains(place),
        row_holds(state, place, results.locations.index_of(location)) ==> results.dep_locations(
            target,
            Direction::Backward,
        ).contains(results.locations.index_of(location)),
{
    let deps = results.target_deps(target);
    let row = state.row(place as int);
    assert(row.contains(dep));
    assert forall|d: usize| #[trigger] row.contains(d) implies deps.contains(d) by {
        assert(row_holds(state, place, d));
    }
    related_point_by_point(row, deps);
    lemma_found(results, target, Direction::Backward, location, state, place);
}

/// Looking forward, a place that depends on something, and on all that the target
/// depends on, after a point that can be reached, is among the dependencies. So is
/// the point, if the place depends on it.
pub proof fn forward_finds_what_is_made_of_the_target(
    results: &FlowResults,
    target: (Place, Location),
    location: Location,
    state: FlowDomain,
    place: usize,
    dep: usize,
)
    requires
        is_after(results, location, state),
        place < state.rows@.len(),
        row_holds(state, place, dep),
        forall|d: usize| #[trigger]
            results.target_deps(target).contains(d) ==> row_holds(state, place, d),
    ensures
        results.dep_places(target, Direction::Forward).contains(place),
        row_holds(state, place, results.locations.index_of(location)) ==> results.dep_locations(
            target,
            Direction::Forward,
        ).contains(results.locations.index_of(location)),
{
    let deps = results.target_deps(target);
    let row = state.row(place as int);
    assert(row.contains(dep));
    assert forall|d: usize| #[trigger] deps.contains(d) implies row.contains(d) by {
        assert(row_holds(state, place, d));
    }
    related_point_by_point(row, deps);
    lemma_found(results, target, Direction::Forward, location, state, place);
}

proof fn lemma_found(
    results: &FlowResults,
    target: (Place, Location),
    direction: Direction,
    location: Location,
    state: FlowDomain,
    place: usize,
)
    requires
        is_after(results, location, state),
        dependencies::related_row(direction, state, place, results.target_deps(target)),
    ensures
        results.dep_places(target, direction).contains(place),
        row_holds(state, place, results.locations.index_of(location)) ==> results.dep_locations(
            target,
            direction,
        ).contains(results.locations.index_of(location)),
{
    let points = results.points();
    assert(results.is_point(location));
    assert(points.contains(location));
    assert(results.states.value(location) == state);
    let n = results.locations.index_of(location);
    if row_holds(state, place, n) {
        assert(dependencies::related_row(direction, state, place, results.target_deps(target))
            && state.row(place as int).contains(n));
        assert(dependencies::hits(direction, state, n, results.target_deps(target)));
    }
}

/// Nothing else is among the dependencies: a place that the target does not stand
/// for depends on something after a point that can be reached, and on nothing else
/// than the target does (backward) or on all that the target does (forward); and a
/// point is one after which such a place depends on it.
pub proof fn dependencies_are_nothing_else(
    results: &FlowResults,
    target: (Place, Location),
    direction: Direction,
    place: usize,
    n: usize,
)
    ensures
        results.dep_places(target, direction).contains(place) ==> results.expanded(
            target.0@,
        ).contains(place) || exists|l: Location, state: FlowDomain| #[trigger]
            is_after(results, l, state) && is_dependency(
                direction,
                state,
                place,
                results.target_deps(target),
            ),
        results.dep_locations(target, direction).contains(n) ==> exists|
            l: Location,
            state: FlowDomain,
            p: usize,
        |
            #![trigger is_after(results, l, state), row_holds(state, p, n)]
            is_after(results, l, state) && results.locations.index_of(l) == n && is_dependency(
                direction,
                state,
                p,
                results.target_deps(target),
            ) && row_holds(state, p, n),
{
    let deps = results.target_deps(target);
    let points = results.points();
    if results.related_places(points, direction, deps).contains(place) {
        let l = choose|l: Location| #[trigger]
            points.contains(l) && dependencies::related_row(
                direction,
                results.states.value(l),
                place,
                deps,
            );
        assert(is_after(results, l, results.states.value(l)));
        lemma_dependency(direction, results.states.value(l), place, deps);
    }
    if results.dep_locations(target, direction).contains(n) {
        let l = choose|l: Location| #[trigger]
            points.contains(l) && results.locations.index_of(l) == n && dependencies::hits(
                direction,
                results.states.value(l),
                n,
                deps,
            );
        let state = results.states.value(l);
        let p = choose|p: usize| #[trigger]
            dependencies::related_row(direction, state, p, deps) && state.row(p as int).contains(n);
        lemma_dependency(direction, state, p, deps);
        assert(is_after(results, l, state) && row_holds(state, p, n));
    }
}

/// Whether a place depends on something in a state, and on nothing else than a
/// target does (backward) or on all that the target does (forward).
pub open spec fn is_dependency(
    direction: Direction,
    state: FlowDomain,
    place: usize,
    target: Set<usize>,
) -> bool {
    &&& place < state.rows@.len()
    &&& exists|d: usize| row_holds(state, place, d)
    &&& direction == Direction::Backward ==> forall|d: usize| #[trigger]
        row_holds(state, place, d) ==> target.contains(d)
    &&& direction == Direction::Forward ==> forall|d: usize| #[trigger]
        target.contains(d) ==> row_holds(state, place, d)
}

proof fn lemma_dependency(
    direction: Direction,
    state: FlowDomain,
    place: usize,
    target: Set<usize>,
)
    requires
        dependencies::related_row(direction, state, place, target),
    ensures
        is_dependency(direction, state, place, target),
{
    let row = state.row(place as int);
    related_point_by_point(row, target);
    let d = choose|d: usize| row.contains(d);
    assert(row_holds(state, place, d));
    assert forall|d: usize| row_holds(state, place, d) <==> row.contains(d) by {}
}

/// Visiting a point adds each place that is a dependency in the state after it, and
/// no other; and the point itself if and only if one of these depends on it.
pub proof fn visit_adds_dependencies(
    direction: Direction,
    state: FlowDomain,
    location: usize,
    target: Set<usize>,
    found: (Set<usize>, Set<usize>),
    place: usize,
    n: usize,
)
    ensures
        ({
            let after = dependencies::visited(direction, state, location, target, found);
            &&& after.1.contains(place) <==> found.1.contains(place) || is_dependency(
                direction,
                state,
                place,
                target,
            )
            &&& after.0.contains(n) <==> found.0.contains(n) || n == location && exists|p: usize|
                #[trigger]
                is_dependency(direction, state, p, target) && row_holds(state, p, location)
        }),
{
    assert forall|p: usize| dependencies::related_row(direction, state, p, target)
        <==> #[trigger] is_dependency(direction, state, p, target) by {
        let row = state.row(p as int);
        related_point_by_point(row, target);
        assert forall|d: usize| row_holds(state, p, d) <==> row.contains(d) by {}
        if dependencies::related_row(direction, state, p, target) {
            lemma_dependency(direction, state, p, target);
        }
        if is_dependency(direction, state, p, target) {
            let d = choose|d: usize| row_holds(state, p, d);
            assert(row.contains(d));
            if direction == Direction::Forward {
                assert forall|t: usize| #[trigger] target.contains(t) implies row.contains(t) by {
                    assert(row_holds(state, p, t));
                }
            } else {
                assert forall|t: usize| #[trigger] row.contains(t) implies target.contains(t) by {
                    assert(row_holds(state, p, t));
                }
            }
        }
    }
    if dependencies::hits(direction, state, location, target) {
        let p = choose|p: usize| #[trigger]
            dependencies::related_row(direction, state, p, target) && state.row(
                p as int,
            ).contains(location);
        assert(is_dependency(direction, state, p, target) && row_holds(state, p, location));
    }
    if exists|p: usize| #[trigger]
        is_dependency(direction, state, p, target) && row_holds(state, p, location) {
        let p = choose|p: usize| #[trigger]
            is_dependency(direction, state, p, target) && row_holds(state, p, location);
        assert(dependencies::related_row(direction, state, p, target) && state.row(
            p as int,
        ).contains(location));
    }
}

} // verus!
