use rust_slicer::config::{Range, RangeError};
use rust_slicer::flow::dependencies::{
    compute_dependencies, DepVisitor, Direction, FlowDomain, FlowResults,
};
use rust_slicer::flow::ranges::{
    compute_dependency_ranges, compute_dependency_spans, keep_range, ranges_of_spans,
    try_compute_dependency_ranges, BodySpans,
};
use rust_slicer::index_matrix::IndexMatrix;
use rust_slicer::index_set::IndexSet;
use rust_slicer::mir::{
    Location, LocationIndices, Mutability, Place, PlaceIndices, PointTable, Pointer,
};
use rust_slicer::source::Span;
use rustc_span::source_map::{FilePathMapping, SourceMap};
use rustc_span::{
    BytePos, FileName, NonNarrowChar, RealFileName, SourceFileHash, SourceFileHashAlgorithm,
};
use std::path::PathBuf;

fn set(domain: usize, elements: &[usize]) -> IndexSet {
    let mut set = IndexSet::new(domain);
    for i in elements {
        set.insert(*i);
    }
    set
}

fn at(block: usize, statement_index: usize) -> Location {
    Location { block, statement_index }
}

fn rows(columns: usize, rows: &[&[usize]]) -> FlowDomain {
    IndexMatrix { rows: rows.iter().map(|row| Some(set(columns, row))).collect() }
}

// let a = 1;      point 0
// let b = a + 1;  point 1
// let c = 2;      point 2
// return b;       point 3
//
// Places: 0 is the result, 1 is a, 2 is b, 3 is c, 4 is *b. The second block,
// with point 4, cannot be reached.
fn results() -> FlowResults {
    let mut places = PlaceIndices::new();
    for local in 0..4 {
        places.add(Place::whole(local));
    }
    places.add(Place::whole(2).deref());
    let mut locations = LocationIndices::new();
    for i in 0..4 {
        locations.add(at(0, i));
    }
    locations.add(at(1, 0));
    let states = PointTable {
        blocks: vec![
            vec![
                rows(5, &[&[], &[0], &[], &[], &[]]),
                rows(5, &[&[], &[0], &[0, 1], &[], &[]]),
                rows(5, &[&[], &[0], &[0, 1], &[2], &[]]),
                rows(5, &[&[0, 1, 3], &[0], &[0, 1], &[2], &[]]),
            ],
            vec![rows(5, &[&[], &[4], &[4], &[4], &[4]])],
        ],
    };
    let results = FlowResults {
        places,
        locations,
        aliases: IndexMatrix { rows: vec![None, None, None, None, Some(set(5, &[3, 4]))] },
        pointers: vec![vec![], vec![], vec![], vec![], vec![]],
        states,
        reachable: vec![0],
    };
    assert!(results.tables_fit());
    results
}

fn one(
    results: &FlowResults,
    place: Place,
    location: Location,
    direction: Direction,
) -> (Vec<usize>, Vec<usize>) {
    let targets = vec![(place, location)];
    assert!(results.accepts(&targets));
    let deps = compute_dependencies(results, targets, direction);
    assert_eq!(deps.len(), 1);
    (deps[0].0.to_vec(), deps[0].1.to_vec())
}

#[test]
fn backward_from_a_place_finds_what_it_was_made_of() {
    let results = results();
    assert_eq!(
        one(&results, Place::whole(2), at(0, 3), Direction::Backward),
        (vec![0, 1], vec![1, 2])
    );
    assert_eq!(
        one(&results, Place::whole(1), at(0, 3), Direction::Backward),
        (vec![0], vec![1])
    );
    assert_eq!(
        one(&results, Place::whole(0), at(0, 3), Direction::Backward),
        (vec![0, 1, 3], vec![0, 1, 2])
    );
}

#[test]
fn forward_from_a_place_finds_what_was_made_of_it() {
    let results = results();
    assert_eq!(
        one(&results, Place::whole(1), at(0, 0), Direction::Forward),
        (vec![0, 1, 3], vec![0, 1, 2])
    );
    assert_eq!(
        one(&results, Place::whole(2), at(0, 1), Direction::Forward),
        (vec![1, 3], vec![0, 2])
    );
    assert_eq!(
        one(&results, Place::whole(3), at(0, 2), Direction::Forward),
        (vec![2], vec![3])
    );
}

#[test]
fn target_that_depends_on_nothing() {
    let results = results();
    assert_eq!(
        one(&results, Place::whole(3), at(0, 0), Direction::Backward),
        (vec![], vec![3])
    );
    // Forward, everything that depends on anything depends on all of nothing.
    assert_eq!(
        one(&results, Place::whole(3), at(0, 0), Direction::Forward),
        (vec![0, 1, 2, 3], vec![0, 1, 2, 3])
    );
}

#[test]
fn backward_dependencies_are_those_of_the_target() {
    let results = results();
    for local in 0..4 {
        for i in 0..4 {
            let places = results.expand(&(Place::whole(local), at(0, i)));
            let own = results.locations_after(&places, at(0, i));
            let targets = vec![(Place::whole(local), at(0, i))];
            let deps = compute_dependencies(&results, targets, Direction::Backward);
            assert!(own.is_superset(&deps[0].0));
            assert!(deps[0].1.is_superset(&places));
        }
    }
}

#[test]
fn pointers_inside_a_target_lead_to_more_targets() {
    let mut results = results();
    results.pointers[2].push(Pointer { place: Place::whole(2), mutability: Mutability::Mut });
    assert!(results.tables_fit());
    let target = (Place::whole(2), at(0, 2));
    assert_eq!(results.expand(&target).to_vec(), vec![2, 3, 4]);
    assert_eq!(
        one(&results, Place::whole(2), at(0, 2), Direction::Backward),
        (vec![0, 1, 2], vec![1, 2, 3, 4])
    );
}

#[test]
fn each_target_has_its_own_dependencies() {
    let results = results();
    let targets = vec![(Place::whole(1), at(0, 3)), (Place::whole(3), at(0, 3))];
    let deps = compute_dependencies(&results, targets, Direction::Backward);
    assert_eq!(deps.len(), 2);
    assert_eq!((deps[0].0.to_vec(), deps[0].1.to_vec()), (vec![0], vec![1]));
    assert_eq!((deps[1].0.to_vec(), deps[1].1.to_vec()), (vec![2], vec![3]));
    assert!(compute_dependencies(&results, vec![], Direction::Forward).is_empty());
}

#[test]
fn blocks_that_cannot_be_reached_are_not_visited() {
    let mut results = results();
    assert_eq!(
        one(&results, Place::whole(1), at(1, 0), Direction::Backward),
        (vec![], vec![1])
    );
    results.reachable.push(1);
    assert!(results.tables_fit());
    assert_eq!(
        one(&results, Place::whole(1), at(1, 0), Direction::Backward),
        (vec![4], vec![1, 2, 3, 4])
    );
}

#[test]
fn results_and_targets_that_do_not_fit_are_noticed() {
    let mut results = results();
    assert!(!results.accepts(&vec![(Place::whole(9), at(0, 0))]));
    assert!(!results.accepts(&vec![(Place::whole(1), at(0, 4))]));
    results.pointers[1].push(Pointer { place: Place::whole(1), mutability: Mutability::Not });
    assert!(!results.accepts(&vec![(Place::whole(1), at(0, 0))]));
    assert!(results.accepts(&vec![(Place::whole(2), at(0, 0))]));
    results.reachable.push(2);
    assert!(!results.tables_fit());
}

#[test]
fn visits_accumulate_in_any_order() {
    let states = [
        rows(3, &[&[0], &[0, 1], &[]]),
        rows(3, &[&[1], &[2], &[0, 1, 2]]),
    ];
    for direction in [Direction::Forward, Direction::Backward] {
        let fresh = || {
            DepVisitor::new(
                direction,
                vec![set(3, &[0, 1])],
                vec![(set(3, &[]), set(3, &[2]))],
            )
        };
        let mut there = fresh();
        there.visit(&states[0], 0);
        there.visit(&states[1], 1);
        let mut back = fresh();
        back.visit_terminator_after_primary_effect(&states[1], 1);
        back.visit_statement_after_primary_effect(&states[0], 0);
        back.visit(&states[1], 1);
        assert_eq!(there.into_outputs(), back.into_outputs());
    }
}

#[test]
fn directions_are_converse() {
    let subsets: Vec<IndexSet> = (1..8usize)
        .map(|bits| set(3, &(0..3).filter(|i| bits >> i & 1 == 1).collect::<Vec<_>>()))
        .collect();
    let finds = |direction: Direction, deps: &IndexSet, target: &IndexSet| {
        let mut visitor = DepVisitor::new(
            direction,
            vec![target.clone()],
            vec![(set(3, &[]), set(1, &[]))],
        );
        visitor.visit(&IndexMatrix { rows: vec![Some(deps.clone())] }, 0);
        visitor.into_outputs()[0].1.contains(0)
    };
    for a in &subsets {
        for b in &subsets {
            assert_eq!(finds(Direction::Backward, a, b), finds(Direction::Forward, b, a));
            for c in &subsets {
                if c.is_superset(b) {
                    assert!(!finds(Direction::Backward, a, b) || finds(Direction::Backward, a, c));
                    assert!(!finds(Direction::Forward, a, c) || finds(Direction::Forward, a, b));
                }
            }
        }
    }
}

fn spans() -> BodySpans {
    BodySpans {
        locations: vec![
            vec![Span { lo: 0, hi: 10 }],
            vec![Span { lo: 11, hi: 25 }, Span { lo: 19, hi: 24 }],
            vec![Span { lo: 26, hi: 36 }],
            vec![Span { lo: 37, hi: 46 }],
            vec![],
        ],
        locals: vec![
            Span { lo: 0, hi: 46 },
            Span { lo: 4, hi: 5 },
            Span { lo: 15, hi: 16 },
            Span { lo: 30, hi: 31 },
        ],
    }
}

const TEXT: &str = "let a = 1;\nlet b = a + 1;\nlet c = 2;\nreturn b;\n";

fn map() -> SourceMap {
    let map = SourceMap::new(FilePathMapping::empty());
    map.new_source_file(
        FileName::Real(RealFileName::LocalPath(PathBuf::from("f.rs"))),
        TEXT.to_owned(),
    );
    map
}

fn range(line: usize, start: usize, end: usize) -> Range {
    Range { filename: "f.rs".to_owned(), ..Range::line(line, start, end) }
}

#[test]
fn spans_of_points_come_before_those_of_places() {
    let results = results();
    assert!(spans().covers(&results));
    let targets = vec![(Place::whole(0), at(0, 3)), (Place::whole(3), at(0, 0))];
    let found = compute_dependency_spans(&results, &targets, Direction::Backward, &spans());
    // The place of the result is left out.
    assert_eq!(
        found[0],
        vec![
            Span { lo: 0, hi: 10 },
            Span { lo: 11, hi: 25 },
            Span { lo: 19, hi: 24 },
            Span { lo: 37, hi: 46 },
            Span { lo: 4, hi: 5 },
            Span { lo: 15, hi: 16 },
        ]
    );
    assert_eq!(found[1], vec![Span { lo: 30, hi: 31 }]);
}

#[test]
fn body_without_spans_for_all_its_parts_is_noticed() {
    let results = results();
    let mut few = spans();
    few.locations.pop();
    assert!(!few.covers(&results));
    let mut few = spans();
    few.locals.pop();
    assert!(!few.covers(&results));
}

#[test]
fn ranges_of_the_dependencies() {
    let results = results();
    let map = map();
    let targets = || vec![(Place::whole(2), at(0, 3))];
    let ranges =
        compute_dependency_ranges(&results, targets(), Direction::Backward, &spans(), &map);
    assert_eq!(
        ranges,
        vec![vec![
            range(0, 0, 10),
            range(1, 0, 14),
            range(1, 8, 13),
            range(0, 4, 5),
            range(1, 4, 5),
        ]]
    );
    assert_eq!(range(1, 8, 13).substr(TEXT), "a + 1");
    assert_eq!(
        try_compute_dependency_ranges(&results, targets(), Direction::Backward, &spans(), &map),
        Some(ranges)
    );
}

#[test]
fn spans_that_cannot_be_resolved_give_no_ranges() {
    let results = results();
    let map = map();
    let mut outside = spans();
    outside.locations[0] = vec![Span { lo: 5, hi: 4 }];
    let targets = || vec![(Place::whole(1), at(0, 3))];
    assert_eq!(
        try_compute_dependency_ranges(&results, targets(), Direction::Backward, &outside, &map),
        None
    );
    // Only what is among the dependencies has to be resolved.
    let elsewhere = vec![(Place::whole(3), at(0, 3))];
    assert_eq!(
        try_compute_dependency_ranges(&results, elsewhere, Direction::Backward, &outside, &map),
        Some(vec![vec![range(2, 0, 10), range(2, 4, 5)]])
    );
}

#[test]
fn spans_in_files_without_text_are_kept() {
    let results = results();
    let map = map();
    let file = map.new_imported_source_file(
        FileName::Real(RealFileName::LocalPath(PathBuf::from("dep.rs"))),
        SourceFileHash::new(SourceFileHashAlgorithm::Md5, ""),
        0,
        10,
        vec![BytePos(0)],
        vec![],
        vec![NonNarrowChar::Tab(BytePos(0))],
        vec![],
        BytePos(0),
        BytePos(10),
    );
    let start = file.start_pos.0;
    let mut far = spans();
    far.locations[0] = vec![Span { lo: start + 1, hi: start + 4 }, Span { lo: 0, hi: start + 1 }];
    let targets = vec![(Place::whole(1), at(0, 3))];
    let there = Range { filename: "dep.rs".to_owned(), ..Range::line(0, 1, 4) };
    assert_eq!(
        try_compute_dependency_ranges(&results, targets, Direction::Backward, &far, &map),
        Some(vec![vec![there, range(0, 4, 5)]])
    );
}

#[test]
fn spans_without_a_range_are_left_out() {
    let map = SourceMap::new(FilePathMapping::empty());
    map.new_source_file(FileName::Custom("made up".to_owned()), "xxxx\n".to_owned());
    let file = map.new_source_file(
        FileName::Real(RealFileName::LocalPath(PathBuf::from("f.rs"))),
        TEXT.to_owned(),
    );
    let start = file.start_pos.0;
    let spans = vec![Span { lo: 0, hi: 2 }, Span { lo: start, hi: start + 10 }];
    assert_eq!(ranges_of_spans(&spans, &map), vec![range(0, 0, 10)]);
    let mut kept = vec![];
    keep_range(&mut kept, Err(RangeError::UnsupportedFile("elsewhere".to_owned())));
    keep_range(&mut kept, Ok(range(0, 0, 1)));
    keep_range(&mut kept, Err(RangeError::NoLines("two files".to_owned())));
    assert_eq!(kept, vec![range(0, 0, 1)]);
}
