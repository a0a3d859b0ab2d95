//! Where the dependencies of a target stand in the source.

use super::dependencies::{dependencies_of, Direction, FlowResults};
use crate::config::{Range, RangeError, RangeErrorModel, RangeModel};
use crate::mir::{Location, LocationSet, Place, PlaceModel, PlaceSet};
use crate::source::{span_resolves, Span};
use vstd::prelude::*;

verus! {

/// Where the parts of a body stand in its source.
#[derive(Clone, Debug, PartialEq, Eq)]
pub struct BodySpans {
    /// The spans of each point, by number.
    pub locations: Vec<Vec<Span>>,
    /// The span of the declaration of each local.
    pub locals: Vec<Span>,
}

impl BodySpans {
    /// Whether there are spans for all points and places of a body.
    pub open spec fn cover(&self, results: &FlowResults) -> bool {
        &&& self.locations@.len() == results.locations@.len()
        &&& forall|p: int|
            0 <= p < results.places@.len() ==> (#[trigger] results.places@[p]).local
                < self.locals@.len()
    }

    /// Whether there are spans for all points and places of a body.
    pub fn covers(&self, results: &FlowResults) -> (holds: bool)
        ensures
            holds == self.cover(results),
    {
        if self.locations.len() != results.locations.len() {
            return false;
        }
        let mut p: usize = 0;
        while p < results.places.len()
            invariant
                p <= results.places@.len(),
                forall|q: int|
                    0 <= q < p ==> (#[trigger] results.places@[q]).local < self.locals@.len(),
            decreases results.places@.len() - p,
        {
            let place = results.places.lookup(p);
            if place.local >= self.locals.len() {
                assert(results.places@[p as int].local >= self.locals@.len());
                return false;
            }
            p = p + 1;
        }
        true
    }

    /// The spans of some points, one point after the other.
    pub open spec fn of_locations(&self, locations: Seq<usize>) -> Seq<Span>
        decreases locations.len(),
    {
        if locations.len() == 0 {
            Seq::empty()
        } else {
            self.of_locations(locations.drop_last()) + self.locations@[locations.last() as int]@
        }
    }

    /// The spans of the declarations of some places, the place of the result left
    /// out.
    pub open spec fn of_places(&self, numbered: Seq<PlaceModel>, places: Seq<usize>) -> Seq<Span>
        decreases places.len(),
    {
        if places.len() == 0 {
            Seq::empty()
        } else {
            let earlier = self.of_places(numbered, places.drop_last());
            let place = numbered[places.last() as int];
            if place == PlaceModel::whole(crate::mir::RETURN_LOCAL) {
                earlier
            } else {
                earlier.push(self.locals@[place.local as int])
            }
        }
    }

    /// The spans of points and places of a body: those of the points, then those of
    /// the places.
    pub open spec fn of_both(
        &self,
        results: &FlowResults,
        locations: Set<usize>,
        places: Set<usize>,
    ) -> Seq<Span> {
        self.of_locations(crate::index_set::ascending(locations, results.locations@.len()))
            + self.of_places(
            results.places@,
            crate::index_set::ascending(places, results.places@.len()),
        )
    }

    /// The spans of points and places of a body: those of the points, then those of
    /// the places.
    pub fn dependency_spans(
        &self,
        results: &FlowResults,
        locations: &LocationSet,
        places: &PlaceSet,
    ) -> (spans: Vec<Span>)
        requires
            self.cover(results),
            locations.domain_size() == results.locations@.len(),
            places.domain_size() == results.places@.len(),
        ensures
            spans@ == self.of_both(results, locations@, places@),
    {
        proof {
            locations.lemma_finite();
            places.lemma_finite();
            crate::index_set::lemma_ascending(locations@, locations.domain_size());
            crate::index_set::lemma_ascending(places@, places.domain_size());
        }
        let listed = locations.to_vec();
        let mut spans: Vec<Span> = Vec::new();
        let mut i: usize = 0;
        while i < listed.len()
            invariant
                i <= listed@.len(),
                self.cover(results),
                forall|l: usize| listed@.contains(l) ==> l < results.locations@.len(),
                spans@ == self.of_locations(listed@.take(i as int)),
            decreases listed@.len() - i,
        {
            assert(listed@.contains(listed@[i as int]));
            let of_one = &self.locations[listed[i]];
            let ghost before = spans@;
            let mut k: usize = 0;
            while k < of_one.len()
                invariant
                    k <= of_one@.len(),
                    spans@ == before + of_one@.take(k as int),
                decreases of_one@.len() - k,
            {
                spans.push(of_one[k]);
                k = k + 1;
                assert(spans@ =~= before + of_one@.take(k as int));
            }
            assert(of_one@.take(k as int) =~= of_one@);
            assert(listed@.take(i + 1).drop_last() =~= listed@.take(i as int));
            i = i + 1;
        }
        assert(listed@.take(i as int) =~= listed@);
        let ghost of_locations = spans@;
        let listed = places.to_vec();
        let return_place = Place::return_place();
        let mut i: usize = 0;
        assert(spans@ =~= of_locations + self.of_places(results.places@, listed@.take(0)));
        while i < listed.len()
            invariant
                i <= listed@.len(),
                self.cover(results),
                return_place@ == PlaceModel::whole(crate::mir::RETURN_LOCAL),
                forall|p: usize| listed@.contains(p) ==> p < results.places@.len(),
                spans@ == of_locations + self.of_places(results.places@, listed@.take(i as int)),
            decreases listed@.len() - i,
        {
            assert(listed@.contains(listed@[i as int]));
            let place = results.places.lookup(listed[i]);
            assert(results.places@[listed@[i as int] as int].local < self.locals@.len());
            let ghost before = spans@;
            if !place.same(&return_place) {
                spans.push(self.locals[place.local]);
            }
            assert(listed@.take(i + 1).drop_last() =~= listed@.take(i as int));
            i = i + 1;
            assert(spans@ =~= of_locations + self.of_places(
                results.places@,
                listed@.take(i as int),
            ));
        }
        assert(listed@.take(i as int) =~= listed@);
        spans
    }
}

/// The ranges among some results.
pub open spec fn ranges_among(found: Seq<Result<RangeModel, RangeErrorModel>>) -> Seq<RangeModel>
    decreases found.len(),
{
    if found.len() == 0 {
        Seq::empty()
    } else {
        let earlier = ranges_among(found.drop_last());
        match found.last() {
            Ok(range) => earlier.push(range),
            Err(_) => earlier,
        }
    }
}

/// The ranges of some spans in files; spans without a range are left out.
pub open spec fn ranges_in_files(
    files: Seq<crate::source::FileModel>,
    spans: Seq<Span>,
) -> Seq<RangeModel> {
    ranges_among(spans.map_values(|span: Span| crate::config::range_in_files(files, span)))
}

/// Whether files can tell where each of some spans stands.
pub open spec fn all_resolve(files: Seq<crate::source::FileModel>, spans: Seq<Span>) -> bool {
    forall|i: int| 0 <= i < spans.len() ==> crate::source::resolves(files, #[trigger] spans[i])
}

/// What ranges denote.
pub open spec fn range_models(ranges: Seq<Range>) -> Seq<RangeModel> {
    ranges.map_values(|range: Range| range@)
}

/// Adds the range that was found for a span, if one was.
pub fn keep_range(ranges: &mut Vec<Range>, found: Result<Range, RangeError>)
    ensures
        final(ranges)@ == (match found {
            Ok(range) => old(ranges)@.push(range),
            Err(_) => old(ranges)@,
        }),
{
    if let Ok(range) = found {
        ranges.push(range);
    }
}

/// The ranges of some spans that a source map resolves; spans without a range are
/// left out.
pub fn ranges_of_spans(
    spans: &Vec<Span>,
    source_map: &rustc_span::source_map::SourceMap,
) -> (ranges: Vec<Range>)
    requires
        all_resolve(crate::source::files_of(*source_map), spans@),
    ensures
        range_models(ranges@) == ranges_in_files(crate::source::files_of(*source_map), spans@),
{
    let ghost files = crate::source::files_of(*source_map);
    let ghost found = spans@.map_values(|span: Span| crate::config::range_in_files(files, span));
    let mut ranges: Vec<Range> = Vec::new();
    assert(range_models(ranges@) =~= ranges_among(found.take(0)));
    let mut i: usize = 0;
    while i < spans.len()
        invariant
            i <= spans@.len(),
            files == crate::source::files_of(*source_map),
            all_resolve(files, spans@),
            found == spans@.map_values(|span: Span| crate::config::range_in_files(files, span)),
            range_models(ranges@) == ranges_among(found.take(i as int)),
        decreases spans@.len() - i,
    {
        let span = spans[i];
        let range = Range::from_span(span, source_map);
        let ghost before = ranges@;
        let ghost model = crate::config::result_model(range);
        keep_range(&mut ranges, range);
        proof {
            assert(found.take(i + 1).drop_last() =~= found.take(i as int));
            assert(found.take(i + 1).last() == model);
            assert(range_models(ranges@) =~= match model {
                Ok(r) => range_models(before).push(r),
                Err(_) => range_models(before),
            });
        }
        i = i + 1;
    }
    assert(found.take(i as int) =~= found);
    ranges
}

/// The spans of the dependencies of a target.
pub open spec fn target_spans(
    results: &FlowResults,
    body_spans: &BodySpans,
    target: (Place, Location),
    direction: Direction,
) -> Seq<Span> {
    body_spans.of_both(
        results,
        results.dep_locations(target, direction),
        results.dep_places(target, direction),
    )
}

/// The spans of the dependencies of each of some targets: those of its points, then
/// those of its places.
pub fn compute_dependency_spans(
    results: &FlowResults,
    targets: &Vec<(Place, Location)>,
    direction: Direction,
    body_spans: &BodySpans,
) -> (spans: Vec<Vec<Span>>)
    requires
        results.wf(),
        results.targets_fit(targets@),
        body_spans.cover(results),
    ensures
        spans@.len() == targets@.len(),
        forall|k: int|
            #![trigger spans@[k]]
            0 <= k < spans@.len() ==> spans@[k]@ == target_spans(
                results,
                body_spans,
                targets@[k],
                direction,
            ),
{
    let deps = dependencies_of(results, targets, direction);
    let mut spans: Vec<Vec<Span>> = Vec::new();
    let mut k: usize = 0;
    while k < deps.len()
        invariant
            k <= deps@.len(),
            deps@.len() == targets@.len(),
            body_spans.cover(results),
            forall|j: int|
                #![trigger deps@[j]]
                0 <= j < deps@.len() ==> {
                    &&& deps@[j].0@ == results.dep_locations(targets@[j], direction)
                    &&& deps@[j].1@ == results.dep_places(targets@[j], direction)
                    &&& deps@[j].0.domain_size() == results.locations@.len()
                    &&& deps@[j].1.domain_size() == results.places@.len()
                },
            spans@.len() == k,
            forall|j: int|
                #![trigger spans@[j]]
                0 <= j < k ==> spans@[j]@ == target_spans(
                    results,
                    body_spans,
                    targets@[j],
                    direction,
                ),
        decreases deps@.len() - k,
    {
        let (locations, places) = &deps[k];
        assert(deps@[k as int] == (*locations, *places));
        spans.push(body_spans.dependency_spans(results, locations, places));
        k = k + 1;
    }
    spans
}

/// The ranges of the dependencies of each of some targets: those of its points,
/// then those of its places. Spans without a range are left out.
pub fn compute_dependency_ranges(
    results: &FlowResults,
    targets: Vec<(Place, Location)>,
    direction: Direction,
    body_spans: &BodySpans,
    source_map: &rustc_span::source_map::SourceMap,
) -> (ranges: Vec<Vec<Range>>)
    requires
        results.wf(),
        results.targets_fit(targets@),
        body_spans.cover(results),
        forall|k: int|
            #![trigger targets@[k]]
            0 <= k < targets@.len() ==> all_resolve(
                crate::source::files_of(*source_map),
                target_spans(results, body_spans, targets@[k], direction),
            ),
    ensures
        ranges@.len() == targets@.len(),
        forall|k: int|
            #![trigger ranges@[k]]
            0 <= k < ranges@.len() ==> range_models(ranges@[k]@) == ranges_in_files(
                crate::source::files_of(*source_map),
                target_spans(results, body_spans, targets@[k], direction),
            ),
{
    let spans = compute_dependency_spans(results, &targets, direction, body_spans);
    let mut ranges: Vec<Vec<Range>> = Vec::new();
    let mut k: usize = 0;
    while k < spans.len()
        invariant
            k <= spans@.len(),
            spans@.len() == targets@.len(),
            forall|j: int|
                #![trigger spans@[j]]
                0 <= j < spans@.len() ==> spans@[j]@ == target_spans(
                    results,
                    body_spans,
                    targets@[j],
                    direction,
                ),
            forall|j: int|
                #![trigger targets@[j]]
                0 <= j < targets@.len() ==> all_resolve(
                    crate::source::files_of(*source_map),
                    target_spans(results, body_spans, targets@[j], direction),
                ),
            ranges@.len() == k,
            forall|j: int|
                #![trigger ranges@[j]]
                0 <= j < k ==> range_models(ranges@[j]@) == ranges_in_files(
                    crate::source::files_of(*source_map),
                    target_spans(results, body_spans, targets@[j], direction),
                ),
        decreases spans@.len() - k,
    {
        assert(spans@[k as int]@ == target_spans(
            results,
            body_spans,
            targets@[k as int],
            direction,
        ));
        ranges.push(ranges_of_spans(&spans[k], source_map));
        k = k + 1;
    }
    ranges
}

/// Whether a source map resolves each of some spans.
fn spans_resolve(spans: &Vec<Span>, source_map: &rustc_span::source_map::SourceMap) -> (holds: bool)
    ensures
        holds == all_resolve(crate::source::files_of(*source_map), spans@),
{
    let mut i: usize = 0;
    while i < spans.len()
        invariant
            i <= spans@.len(),
            forall|j: int|
                0 <= j < i ==> crate::source::resolves(
                    crate::source::files_of(*source_map),
                    #[trigger] spans@[j],
                ),
        decreases spans@.len() - i,
    {
        if !span_resolves(source_map, spans[i]) {
            assert(!crate::source::resolves(
                crate::source::files_of(*source_map),
                spans@[i as int],
            ));
            return false;
        }
        i = i + 1;
    }
    true
}

/// The ranges of the dependencies of each of some targets, or nothing where the
/// source map does not resolve one of their spans.
pub fn try_compute_dependency_ranges(
    results: &FlowResults,
    targets: Vec<(Place, Location)>,
    direction: Direction,
    body_spans: &BodySpans,
    source_map: &rustc_span::source_map::SourceMap,
) -> (ranges: Option<Vec<Vec<Range>>>)
    requires
        results.wf(),
        results.targets_fit(targets@),
        body_spans.cover(results),
    ensures
        ranges is Some <==> forall|k: int|
            #![trigger targets@[k]]
            0 <= k < targets@.len() ==> all_resolve(
                crate::source::files_of(*source_map),
                target_spans(results, body_spans, targets@[k], direction),
            ),
        ranges matches Some(found) ==> {
            &&& found@.len() == targets@.len()
            &&& forall|k: int|
                #![trigger found@[k]]
                0 <= k < found@.len() ==> range_models(found@[k]@) == ranges_in_files(
                    crate::source::files_of(*source_map),
                    target_spans(results, body_spans, targets@[k], direction),
                )
        },
{
    let spans = compute_dependency_spans(results, &targets, direction, body_spans);
    let mut k: usize = 0;
    while k < spans.len()
        invariant
            k <= spans@.len(),
            spans@.len() == targets@.len(),
            forall|j: int|
                #![trigger spans@[j]]
                0 <= j < spans@.len() ==> spans@[j]@ == target_spans(
                    results,
                    body_spans,
                    targets@[j],
                    direction,
                ),
            forall|j: int|
                #![trigger targets@[j]]
                0 <= j < k ==> all_resolve(
                    crate::source::files_of(*source_map),
                    target_spans(results, body_spans, targets@[j], direction),
                ),
        decreases spans@.len() - k,
    {
        assert(spans@[k as int]@ == target_spans(
            results,
            body_spans,
            targets@[k as int],
            direction,
        ));
        if !spans_resolve(&spans[k], source_map) {
            return None;
        }
        k = k + 1;
    }
    Some(compute_dependency_ranges(results, targets, direction, body_spans, source_map))
}

} // verus!
