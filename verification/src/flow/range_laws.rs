//! What holds of the spans and the ranges of dependencies.

use super::dependencies::{Direction, FlowResults};
use super::ranges::{self, BodySpans};
use crate::config::{RangeErrorModel, RangeModel};
use crate::mir::{Location, Place, PlaceModel};
use crate::source::{FileModel, Span};
use vstd::prelude::*;

verus! {

/// The spans of points listed one after the other follow each other, all spans of
/// each point in their order.
pub proof fn spans_of_points_follow_each_other(
    spans: &BodySpans,
    first: Seq<usize>,
    second: Seq<usize>,
    point: usize,
)
    ensures
        spans.of_locations(first + second) == spans.of_locations(first) + spans.of_locations(
            second,
        ),
        spans.of_locations(seq![point]) == spans.locations@[point as int]@,
    decreases second.len(),
{
    if second.len() == 0 {
        assert(first + second =~= first);
        assert(spans.of_locations(first) + spans.of_locations(second) =~= spans.of_locations(
            first,
        ));
    } else {
        spans_of_points_follow_each_other(spans, first, second.drop_last(), point);
        assert((first + second).drop_last() =~= first + second.drop_last());
        assert(spans.of_locations(first + second) =~= spans.of_locations(first)
            + spans.of_locations(second));
    }
    let one = seq![point];
    assert(one.drop_last() =~= Seq::<usize>::empty());
    assert(spans.of_locations(one.drop_last()) =~= Seq::<Span>::empty());
    assert(spans.of_locations(one) =~= spans.locations@[point as int]@);
}

/// The spans of places listed one after the other follow each other. A place has
/// the span of the declaration of its local, whatever part of the local it is; only
/// the whole of the local that holds the result has none.
pub proof fn spans_of_places_follow_each_other(
    spans: &BodySpans,
    numbered: Seq<PlaceModel>,
    first: Seq<usize>,
    second: Seq<usize>,
    place: usize,
)
    ensures
        spans.of_places(numbered, first + second) == spans.of_places(numbered, first)
            + spans.of_places(numbered, second),
        numbered[place as int].local == 0 && numbered[place as int].projection.len() == 0
            ==> spans.of_places(numbered, seq![place]) == Seq::<Span>::empty(),
        numbered[place as int].local != 0 || numbered[place as int].projection.len() != 0
            ==> spans.of_places(numbered, seq![place])
            == seq![spans.locals@[numbered[place as int].local as int]],
    decreases second.len(),
{
    if second.len() == 0 {
        assert(first + second =~= first);
        assert(spans.of_places(numbered, first) + spans.of_places(numbered, second)
            =~= spans.of_places(numbered, first));
    } else {
        spans_of_places_follow_each_other(spans, numbered, first, second.drop_last(), place);
        assert((first + second).drop_last() =~= first + second.drop_last());
        assert(spans.of_places(numbered, first + second) =~= spans.of_places(numbered, first)
            + spans.of_places(numbered, second));
    }
    let one = seq![place];
    let model = numbered[place as int];
    assert(one.drop_last() =~= Seq::<usize>::empty());
    assert(spans.of_places(numbered, one.drop_last()) =~= Seq::<Span>::empty());
    if model.local == 0 && model.projection.len() == 0 {
        assert(model.projection =~= Seq::empty());
        assert(model =~= PlaceModel::whole(0));
    } else {
        assert(model != PlaceModel::whole(0));
        assert(spans.of_places(numbered, one) =~= seq![spans.locals@[model.local as int]]);
    }
}

/// The spans of points and places are those of the points, in ascending order,
/// followed by those of the places, in ascending order.
pub proof fn spans_of_points_come_first(
    spans: &BodySpans,
    results: &FlowResults,
    locations: Set<usize>,
    places: Set<usize>,
)
    ensures
        spans.of_both(results, locations, places) == spans.of_both(
            results,
            locations,
            Set::empty(),
        ) + spans.of_both(results, Set::empty(), places),
        spans.of_both(results, locations, Set::empty()) == spans.of_locations(
            crate::index_set::ascending(locations, results.locations@.len()),
        ),
        spans.of_both(results, Set::empty(), places) == spans.of_places(
            results.places@,
            crate::index_set::ascending(places, results.places@.len()),
        ),
{
    lemma_ascending_empty(results.locations@.len());
    lemma_ascending_empty(results.places@.len());
    let points = spans.of_locations(
        crate::index_set::ascending(locations, results.locations@.len()),
    );
    let rest = spans.of_places(
        results.places@,
        crate::index_set::ascending(places, results.places@.len()),
    );
    assert(spans.of_both(results, locations, Set::empty()) =~= points);
    assert(spans.of_both(results, Set::empty(), places) =~= rest);
}

proof fn lemma_ascending_empty(bound: nat)
    ensures
        crate::index_set::ascending(Set::empty(), bound) == Seq::<usize>::empty(),
    decreases bound,
{
    if bound > 0 {
        lemma_ascending_empty((bound - 1) as nat);
    }
}

/// Each span of each point among a target's dependencies is among the spans of the
/// target, and so is the span of the declaration of each place among them but that
/// of the whole result; there are no others.
pub proof fn target_has_the_spans_of_its_dependencies(
    results: &FlowResults,
    spans: &BodySpans,
    target: (Place, Location),
    direction: Direction,
    span: Span,
)
    requires
        results.locations@.len() <= usize::MAX,
        results.places@.len() <= usize::MAX,
    ensures
        ranges::target_spans(results, spans, target, direction).contains(span) <==> (exists|
            n: usize,
            i: int,
        |
            #![trigger spans.locations@[n as int]@[i]]
            n < results.locations@.len() && results.dep_locations(target, direction).contains(n)
                && 0 <= i < spans.locations@[n as int]@.len() && spans.locations@[n as int]@[i]
                == span) || (exists|p: usize|
            #![trigger results.places@[p as int]]
            p < results.places@.len() && results.dep_places(target, direction).contains(p) && (
            results.places@[p as int].local != 0 || results.places@[p as int].projection.len() != 0)
                && spans.locals@[results.places@[p as int].local as int] == span),
{
    let locations = results.dep_locations(target, direction);
    let places = results.dep_places(target, direction);
    let points = crate::index_set::ascending(locations, results.locations@.len());
    let listed = crate::index_set::ascending(places, results.places@.len());
    crate::index_set::lemma_ascending(locations, results.locations@.len());
    crate::index_set::lemma_ascending(places, results.places@.len());
    lemma_of_locations(spans, points, span);
    lemma_of_places(spans, results.places@, listed, span);
    let first = spans.of_locations(points);
    let second = spans.of_places(results.places@, listed);
    let all = ranges::target_spans(results, spans, target, direction);
    assert(all == first + second);
    if first.contains(span) {
        let k = choose|k: int| 0 <= k < first.len() && first[k] == span;
        assert(all[k] == span);
        let (j, i) = choose|j: int, i: int|
            #![trigger spans.locations@[points[j] as int]@[i]]
            0 <= j < points.len() && 0 <= i < spans.locations@[points[j] as int]@.len()
                && spans.locations@[points[j] as int]@[i] == span;
        assert(points.contains(points[j]));
        assert(spans.locations@[points[j] as int]@[i] == span);
    }
    if second.contains(span) {
        let k = choose|k: int| 0 <= k < second.len() && second[k] == span;
        assert(all[first.len() + k] == span);
        let j = choose|j: int|
            #![trigger listed[j]]
            0 <= j < listed.len() && results.places@[listed[j] as int] != PlaceModel::whole(0)
                && spans.locals@[results.places@[listed[j] as int].local as int] == span;
        assert(listed.contains(listed[j]));
        let model = results.places@[listed[j] as int];
        if model.local == 0 && model.projection.len() == 0 {
            assert(model =~= PlaceModel::whole(0));
        }
    }
    if all.contains(span) {
        let k = choose|k: int| 0 <= k < all.len() && all[k] == span;
        if k < first.len() {
            assert(first[k] == span);
        } else {
            assert(second[k - first.len()] == span);
        }
    }
    if exists|n: usize, i: int|
        #![trigger spans.locations@[n as int]@[i]]
        n < results.locations@.len() && locations.contains(n) && 0 <= i
            < spans.locations@[n as int]@.len() && spans.locations@[n as int]@[i] == span {
        let (n, i) = choose|n: usize, i: int|
            #![trigger spans.locations@[n as int]@[i]]
            n < results.locations@.len() && locations.contains(n) && 0 <= i
                < spans.locations@[n as int]@.len() && spans.locations@[n as int]@[i] == span;
        assert(points.contains(n));
        let j = choose|j: int| 0 <= j < points.len() && points[j] == n;
        assert(spans.locations@[points[j] as int]@[i] == span);
    }
    if exists|p: usize|
        #![trigger results.places@[p as int]]
        p < results.places@.len() && places.contains(p) && (results.places@[p as int].local != 0
            || results.places@[p as int].projection.len() != 0)
            && spans.locals@[results.places@[p as int].local as int] == span {
        let p = choose|p: usize|
            #![trigger results.places@[p as int]]
            p < results.places@.len() && places.contains(p) && (results.places@[p as int].local != 0
                || results.places@[p as int].projection.len() != 0)
                && spans.locals@[results.places@[p as int].local as int] == span;
        assert(listed.contains(p));
        let j = choose|j: int| 0 <= j < listed.len() && listed[j] == p;
        assert(results.places@[listed[j] as int] != PlaceModel::whole(0));
    }
}

proof fn lemma_of_locations(spans: &BodySpans, points: Seq<usize>, span: Span)
    ensures
        spans.of_locations(points).contains(span) <==> exists|j: int, i: int|
            #![trigger spans.locations@[points[j] as int]@[i]]
            0 <= j < points.len() && 0 <= i < spans.locations@[points[j] as int]@.len()
                && spans.locations@[points[j] as int]@[i] == span,
    decreases points.len(),
{
    if points.len() > 0 {
        let earlier = points.drop_last();
        lemma_of_locations(spans, earlier, span);
        let before = spans.of_locations(earlier);
        let last = spans.locations@[points.last() as int]@;
        let all = spans.of_locations(points);
        if all.contains(span) {
            let k = choose|k: int| 0 <= k < all.len() && all[k] == span;
            if k < before.len() {
                assert(before[k] == span);
                let (j, i) = choose|j: int, i: int|
                    #![trigger spans.locations@[earlier[j] as int]@[i]]
                    0 <= j < earlier.len() && 0 <= i < spans.locations@[earlier[j] as int]@.len()
                        && spans.locations@[earlier[j] as int]@[i] == span;
                assert(spans.locations@[points[j] as int]@[i] == span);
            } else {
                assert(spans.locations@[points[points.len() - 1] as int]@[k - before.len()]
                    == span);
            }
        }
        if exists|j: int, i: int|
            #![trigger spans.locations@[points[j] as int]@[i]]
            0 <= j < points.len() && 0 <= i < spans.locations@[points[j] as int]@.len()
                && spans.locations@[points[j] as int]@[i] == span {
            let (j, i) = choose|j: int, i: int|
                #![trigger spans.locations@[points[j] as int]@[i]]
                0 <= j < points.len() && 0 <= i < spans.locations@[points[j] as int]@.len()
                    && spans.locations@[points[j] as int]@[i] == span;
            if j < earlier.len() {
                assert(spans.locations@[earlier[j] as int]@[i] == span);
                let k = choose|k: int| 0 <= k < before.len() && before[k] == span;
                assert(all[k] == span);
            } else {
                assert(all[before.len() + i] == span);
            }
        }
    }
}

proof fn lemma_of_places(
    spans: &BodySpans,
    numbered: Seq<PlaceModel>,
    listed: Seq<usize>,
    span: Span,
)
    ensures
        spans.of_places(numbered, listed).contains(span) <==> exists|j: int|
            #![trigger listed[j]]
            0 <= j < listed.len() && numbered[listed[j] as int] != PlaceModel::whole(0)
                && spans.locals@[numbered[listed[j] as int].local as int] == span,
    decreases listed.len(),
{
    if listed.len() > 0 {
        let earlier = listed.drop_last();
        lemma_of_places(spans, numbered, earlier, span);
        let before = spans.of_places(numbered, earlier);
        let all = spans.of_places(numbered, listed);
        let last = listed.len() - 1;
        if all.contains(span) {
            let k = choose|k: int| 0 <= k < all.len() && all[k] == span;
            if k < before.len() {
                assert(before[k] == span);
                let j = choose|j: int|
                    #![trigger earlier[j]]
                    0 <= j < earlier.len() && numbered[earlier[j] as int] != PlaceModel::whole(0)
                        && spans.locals@[numbered[earlier[j] as int].local as int] == span;
                assert(listed[j] == earlier[j]);
            } else {
                assert(listed[last] == listed.last());
            }
        }
        if exists|j: int|
            #![trigger listed[j]]
            0 <= j < listed.len() && numbered[listed[j] as int] != PlaceModel::whole(0)
                && spans.locals@[numbered[listed[j] as int].local as int] == span {
            let j = choose|j: int|
                #![trigger listed[j]]
                0 <= j < listed.len() && numbered[listed[j] as int] != PlaceModel::whole(0)
                    && spans.locals@[numbered[listed[j] as int].local as int] == span;
            if j < earlier.len() {
                assert(earlier[j] == listed[j]);
                let k = choose|k: int| 0 <= k < before.len() && before[k] == span;
                assert(all[k] == span);
            } else {
                assert(all[before.len() as int] == span);
            }
        }
    }
}

/// The ranges of spans listed one after the other follow each other. A span that has
/// a range has it there, and one that has none is left out, whichever the reason.
pub proof fn ranges_follow_each_other(
    files: Seq<FileModel>,
    first: Seq<Span>,
    second: Seq<Span>,
    span: Span,
)
    ensures
        ranges::ranges_in_files(files, first + second) == ranges::ranges_in_files(files, first)
            + ranges::ranges_in_files(files, second),
        crate::config::range_in_files(files, span) matches Ok(range) ==> ranges::ranges_in_files(
            files,
            seq![span],
        ) == seq![range],
        crate::config::range_in_files(files, span) is Err ==> ranges::ranges_in_files(
            files,
            seq![span],
        ) == Seq::<RangeModel>::empty(),
{
    let model = |s: Span| crate::config::range_in_files(files, s);
    let a = first.map_values(model);
    let b = second.map_values(model);
    assert((first + second).map_values(model) =~= a + b);
    lemma_ranges_among(a, b);
    let one = seq![span].map_values(model);
    assert(one.drop_last() =~= Seq::<Result<RangeModel, RangeErrorModel>>::empty());
    assert(ranges::ranges_among(one.drop_last()) =~= Seq::<RangeModel>::empty());
    assert(one.last() == crate::config::range_in_files(files, span));
}

proof fn lemma_ranges_among(
    a: Seq<Result<RangeModel, RangeErrorModel>>,
    b: Seq<Result<RangeModel, RangeErrorModel>>,
)
    ensures
        ranges::ranges_among(a + b) == ranges::ranges_among(a) + ranges::ranges_among(b),
    decreases b.len(),
{
    if b.len() == 0 {
        assert(a + b =~= a);
        assert(ranges::ranges_among(a) + ranges::ranges_among(b) =~= ranges::ranges_among(a));
    } else {
        lemma_ranges_among(a, b.drop_last());
        assert((a + b).drop_last() =~= a + b.drop_last());
        assert(ranges::ranges_among(a + b) =~= ranges::ranges_among(a) + ranges::ranges_among(b));
    }
}

} // verus!
