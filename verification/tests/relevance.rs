use rust_slicer::analysis::relevance::{
    BorrowData, CollectPlaceIndices, PlaceFacts, RelevanceAnalysis, RelevanceDomain, Relevant,
    SliceSet, TransferFunction,
};
use rust_slicer::index_set::IndexSet;
use rust_slicer::mir::{
    Location, Mutability, Operand, Place, PlaceElem, PlaceIndices, PointTable, Rvalue, Statement,
    Terminator,
};

const POINTS: usize = 6;

fn at(statement_index: usize) -> Location {
    Location { block: 0, statement_index }
}

fn field(local: usize, field: usize) -> Place {
    Place { local, projection: vec![PlaceElem::Field(field)] }
}

fn deref(local: usize) -> Place {
    Place { local, projection: vec![PlaceElem::Deref] }
}

fn set(indices: &PlaceIndices, places: &[Place]) -> IndexSet {
    let mut set = indices.empty_set();
    for place in places {
        set.insert(indices.index(place));
    }
    set
}

fn uses(places: &[Place]) -> Rvalue {
    Rvalue { places: places.to_vec() }
}

fn overlap(part: &Place, whole: &Place) -> bool {
    part.local == whole.local
        && part.projection.iter().zip(whole.projection.iter()).all(|(a, b)| a == b)
}

struct Body {
    places: Vec<Place>,
    shared: Vec<Place>,
    borrows: Vec<BorrowData>,
    in_force: Vec<usize>,
    held_by: Vec<(usize, usize)>,
    locals: usize,
    chosen: Vec<Location>,
}

impl Body {
    fn of_locals(locals: usize) -> Body {
        Body {
            places: (0..locals).map(Place::whole).collect(),
            shared: vec![],
            borrows: vec![],
            in_force: vec![],
            held_by: vec![],
            locals,
            chosen: vec![],
        }
    }

    fn analysis(self) -> RelevanceAnalysis {
        let mut indices = PlaceIndices::new();
        for place in &self.places {
            indices.add(place.clone());
        }
        let facts = PlaceFacts {
            shared_reference: self
                .places
                .iter()
                .map(|p| {
                    (0..p.projection.len())
                        .map(|k| {
                            let base =
                                Place { local: p.local, projection: p.projection[..k].to_vec() };
                            self.shared.contains(&base)
                        })
                        .collect()
                })
                .collect(),
            conflicts: self
                .places
                .iter()
                .map(|w| self.places.iter().map(|p| overlap(p, w)).collect())
                .collect(),
        };
        let mut in_force = IndexSet::new(self.borrows.len());
        for i in &self.in_force {
            in_force.insert(*i);
        }
        let mut held: Vec<IndexSet> =
            (0..self.locals).map(|_| IndexSet::new(self.borrows.len())).collect();
        for (local, borrow) in &self.held_by {
            held[*local].insert(*borrow);
        }
        let mut slice_set = SliceSet::new();
        for location in &self.chosen {
            slice_set.insert(*location);
        }
        let analysis = RelevanceAnalysis::new(
            slice_set,
            facts,
            self.borrows,
            PointTable { blocks: vec![vec![in_force; POINTS]] },
            indices,
            PointTable { blocks: vec![vec![held; POINTS]] },
        );
        assert!(analysis.tables_fit());
        analysis
    }
}

fn after(
    analysis: &RelevanceAnalysis,
    state: &RelevanceDomain,
    statement: &Statement,
    location: Location,
) -> RelevanceDomain {
    assert!(analysis.knows_statement(statement, location));
    let mut state = state.clone();
    analysis.apply_statement_effect(&mut state, statement, location);
    state
}

fn after_terminator(
    analysis: &RelevanceAnalysis,
    state: &RelevanceDomain,
    terminator: &Terminator,
    location: Location,
) -> RelevanceDomain {
    assert!(analysis.knows_terminator(terminator, location));
    let mut state = state.clone();
    analysis.apply_terminator_effect(&mut state, terminator, location);
    state
}

#[test]
fn relevance_of_paths_joins_upward() {
    let all = [Relevant::Unknown, Relevant::No, Relevant::Yes];
    for (i, a) in all.iter().enumerate() {
        for (j, b) in all.iter().enumerate() {
            let mut joined = *a;
            let changed = joined.join(b);
            assert_eq!(joined, all[i.max(j)]);
            assert_eq!(changed, j > i);
        }
    }
}

#[test]
fn states_join_places_and_paths() {
    let mut a_places = IndexSet::new(4);
    a_places.insert(0);
    let mut b_places = IndexSet::new(4);
    b_places.insert(2);
    let mut a = RelevanceDomain {
        places: a_places,
        statement_relevant: false,
        path_relevant: Relevant::No,
    };
    let b = RelevanceDomain {
        places: b_places,
        statement_relevant: true,
        path_relevant: Relevant::Yes,
    };
    assert!(a.join(&b));
    assert_eq!(a.places.to_vec(), vec![0, 2]);
    assert_eq!(a.path_relevant, Relevant::Yes);
    assert!(!a.statement_relevant);
    assert!(!a.join(&b));
}

#[test]
fn state_before_anything_is_known_is_neutral() {
    let analysis = Body::of_locals(3).analysis();
    let bottom = analysis.bottom_value();
    assert_eq!(bottom.places.to_vec(), Vec::<usize>::new());
    assert!(!bottom.statement_relevant);
    assert_eq!(bottom.path_relevant, Relevant::Unknown);
    let mut state = analysis.bottom_value();
    state.places.insert(1);
    state.path_relevant = Relevant::No;
    let before = state.clone();
    assert!(!state.join(&bottom));
    assert_eq!(state, before);
    analysis.initialize_start_block(&mut state);
    analysis.apply_call_return_effect(&mut state, &Place::whole(2));
    assert_eq!(state, before);
}

#[test]
fn chosen_assignment_makes_its_places_relevant() {
    let mut body = Body::of_locals(4);
    body.chosen = vec![at(2)];
    let analysis = body.analysis();
    let statement = Statement::Assign(Place::whole(1), uses(&[Place::whole(2), Place::whole(3)]));
    let state = after(&analysis, &analysis.bottom_value(), &statement, at(2));
    // The target is overwritten for certain, so it no longer matters before.
    assert_eq!(state.places.to_vec(), vec![2, 3]);
    assert!(state.statement_relevant);
    assert_eq!(state.path_relevant, Relevant::Yes);
    let elsewhere = after(&analysis, &analysis.bottom_value(), &statement, at(3));
    assert_eq!(elsewhere, analysis.bottom_value());
}

#[test]
fn assignment_to_a_relevant_place_passes_relevance_on() {
    let analysis = Body::of_locals(4).analysis();
    let mut state = analysis.bottom_value();
    state.places.insert(1);
    let statement = Statement::Assign(Place::whole(1), uses(&[Place::whole(2)]));
    let before = after(&analysis, &state, &statement, at(0));
    assert_eq!(before.places.to_vec(), vec![2]);
    assert!(before.statement_relevant);
}

#[test]
fn assignment_to_another_place_is_ignored() {
    let analysis = Body::of_locals(4).analysis();
    let mut state = analysis.bottom_value();
    state.places.insert(1);
    state.statement_relevant = true;
    let statement = Statement::Assign(Place::whole(3), uses(&[Place::whole(2)]));
    let before = after(&analysis, &state, &statement, at(0));
    assert_eq!(before.places.to_vec(), vec![1]);
    assert!(!before.statement_relevant);
    assert_eq!(before.path_relevant, Relevant::Unknown);
    let other = after(&analysis, &state, &Statement::Other, at(0));
    assert_eq!(other.places.to_vec(), vec![1]);
    assert!(!other.statement_relevant);
}

#[test]
fn assignment_to_a_field_keeps_the_whole() {
    let mut body = Body::of_locals(3);
    body.places.push(field(1, 0));
    body.places.push(field(1, 1));
    let analysis = body.analysis();
    let mut state = analysis.bottom_value();
    state.places.insert(1);
    let statement = Statement::Assign(field(1, 0), uses(&[Place::whole(2)]));
    let before = after(&analysis, &state, &statement, at(0));
    // `overlap` makes a whole conflict with its parts, as a deep access does.
    assert_eq!(before.places.to_vec(), vec![2]);
    let mut sibling = analysis.bottom_value();
    sibling.places.insert(4);
    let untouched = after(&analysis, &sibling, &statement, at(0));
    assert_eq!(untouched.places.to_vec(), vec![4]);
    assert!(!untouched.statement_relevant);
}

#[test]
fn assignment_through_a_pointer_keeps_what_it_may_write() {
    let mut body = Body::of_locals(4);
    body.places.push(deref(2));
    body.borrows = vec![BorrowData {
        mutability: Mutability::Mut,
        assigned_place: Place::whole(2),
        borrowed_place: Place::whole(1),
    }];
    body.in_force = vec![0];
    let analysis = body.analysis();
    let (places, pointers) = analysis.places_and_pointers(&deref(2), at(0));
    assert_eq!(places, set(&analysis.place_indices, &[deref(2), Place::whole(1)]));
    assert_eq!(pointers, set(&analysis.place_indices, &[deref(2), Place::whole(2)]));
    let mut state = analysis.bottom_value();
    state.places.insert(1);
    let statement = Statement::Assign(deref(2), uses(&[Place::whole(3)]));
    let before = after(&analysis, &state, &statement, at(0));
    assert_eq!(
        before.places,
        set(
            &analysis.place_indices,
            &[Place::whole(1), Place::whole(3), deref(2), Place::whole(2)]
        )
    );
}

#[test]
fn shared_borrows_are_not_followed() {
    let mut body = Body::of_locals(3);
    body.places.push(deref(2));
    body.borrows = vec![BorrowData {
        mutability: Mutability::Not,
        assigned_place: Place::whole(2),
        borrowed_place: Place::whole(1),
    }];
    body.in_force = vec![0];
    let analysis = body.analysis();
    let (places, pointers) = analysis.places_and_pointers(&deref(2), at(0));
    assert_eq!(places, set(&analysis.place_indices, &[deref(2)]));
    assert_eq!(pointers, set(&analysis.place_indices, &[]));
}

#[test]
fn borrows_that_are_not_in_force_are_not_followed() {
    let mut body = Body::of_locals(3);
    body.borrows = vec![BorrowData {
        mutability: Mutability::Mut,
        assigned_place: Place::whole(2),
        borrowed_place: Place::whole(1),
    }];
    let analysis = body.analysis();
    let (places, _) = analysis.places_and_pointers(&Place::whole(2), at(0));
    assert_eq!(places, set(&analysis.place_indices, &[Place::whole(2)]));
}

#[test]
fn borrows_are_followed_from_locals_that_may_hold_them() {
    let mut body = Body::of_locals(4);
    body.borrows = vec![BorrowData {
        mutability: Mutability::Mut,
        assigned_place: Place::whole(2),
        borrowed_place: Place::whole(1),
    }];
    body.in_force = vec![0];
    body.held_by = vec![(3, 0)];
    let analysis = body.analysis();
    let (places, pointers) = analysis.places_and_pointers(&Place::whole(3), at(0));
    assert_eq!(places, set(&analysis.place_indices, &[Place::whole(1), Place::whole(3)]));
    assert_eq!(pointers, set(&analysis.place_indices, &[Place::whole(2), Place::whole(3)]));
}

#[test]
fn borrows_of_borrows_are_followed_to_the_end() {
    let mut body = Body::of_locals(5);
    body.borrows = vec![
        BorrowData {
            mutability: Mutability::Mut,
            assigned_place: Place::whole(2),
            borrowed_place: Place::whole(1),
        },
        BorrowData {
            mutability: Mutability::Mut,
            assigned_place: Place::whole(3),
            borrowed_place: Place::whole(2),
        },
        BorrowData {
            mutability: Mutability::Mut,
            assigned_place: Place::whole(4),
            borrowed_place: Place::whole(3),
        },
    ];
    body.in_force = vec![0, 1, 2];
    let analysis = body.analysis();
    let (places, pointers) = analysis.places_and_pointers(&Place::whole(4), at(0));
    assert_eq!(places.to_vec(), vec![1, 2, 3, 4]);
    assert_eq!(pointers.to_vec(), vec![2, 3, 4]);
    // Step by step: the place itself, and what is reached from what it borrows.
    let (from_three, pointers_of_three) = analysis.places_and_pointers(&Place::whole(3), at(0));
    let mut together = from_three.clone();
    together.insert(4);
    assert_eq!(together, places);
    let mut all_pointers = pointers_of_three.clone();
    all_pointers.insert(4);
    assert_eq!(all_pointers, pointers);
}

#[test]
fn borrows_that_go_round_are_followed_once() {
    let mut body = Body::of_locals(3);
    body.borrows = vec![
        BorrowData {
            mutability: Mutability::Mut,
            assigned_place: Place::whole(1),
            borrowed_place: Place::whole(2),
        },
        BorrowData {
            mutability: Mutability::Mut,
            assigned_place: Place::whole(2),
            borrowed_place: Place::whole(1),
        },
    ];
    body.in_force = vec![0, 1];
    let analysis = body.analysis();
    let (places, pointers) = analysis.places_and_pointers(&Place::whole(1), at(0));
    assert_eq!(places.to_vec(), vec![1, 2]);
    assert_eq!(pointers.to_vec(), vec![1, 2]);
}

#[test]
fn what_is_behind_a_shared_reference_is_no_part() {
    let mut body = Body::of_locals(2);
    body.places.push(deref(1));
    let through_unique = body.analysis();
    assert!(through_unique.place_is_part(&Place::whole(1), &deref(1)));
    assert!(through_unique.place_index_is_part(1, 2));
    let mut body = Body::of_locals(2);
    body.places.push(deref(1));
    body.shared = vec![Place::whole(1)];
    let through_shared = body.analysis();
    assert!(!through_shared.place_is_part(&Place::whole(1), &deref(1)));
    // The other way round no step is left to take.
    assert!(through_shared.place_is_part(&deref(1), &Place::whole(1)));
    assert!(through_shared.place_is_part(&deref(1), &deref(1)));
}

#[test]
fn call_with_a_relevant_destination_makes_its_arguments_relevant() {
    let analysis = Body::of_locals(5).analysis();
    let mut state = analysis.bottom_value();
    state.places.insert(1);
    let call = Terminator::Call {
        args: vec![
            Operand::Move(Place::whole(2)),
            Operand::Constant,
            Operand::Copy(Place::whole(3)),
        ],
        destination: Some(Place::whole(1)),
    };
    let before = after_terminator(&analysis, &state, &call, at(5));
    // A call overwrites nothing for certain.
    assert_eq!(before.places.to_vec(), vec![1, 2, 3]);
    assert!(before.statement_relevant);
    assert_eq!(before.path_relevant, Relevant::Yes);
}

#[test]
fn call_that_may_write_through_an_argument_matters() {
    let mut body = Body::of_locals(5);
    body.borrows = vec![BorrowData {
        mutability: Mutability::Mut,
        assigned_place: Place::whole(2),
        borrowed_place: Place::whole(1),
    }];
    body.in_force = vec![0];
    let analysis = body.analysis();
    let mut state = analysis.bottom_value();
    state.places.insert(1);
    let call = Terminator::Call {
        args: vec![Operand::Move(Place::whole(2)), Operand::Copy(Place::whole(3))],
        destination: None,
    };
    let before = after_terminator(&analysis, &state, &call, at(5));
    assert_eq!(before.places.to_vec(), vec![1, 2, 3]);
    let unrelated = Terminator::Call {
        args: vec![Operand::Copy(Place::whole(3))],
        destination: Some(Place::whole(4)),
    };
    let before = after_terminator(&analysis, &state, &unrelated, at(5));
    assert_eq!(before.places.to_vec(), vec![1]);
    assert!(!before.statement_relevant);
    assert_eq!(before.path_relevant, Relevant::No);
}

#[test]
fn call_that_matters_and_reads_nothing_settles_the_path() {
    let analysis = Body::of_locals(2).analysis();
    let mut state = analysis.bottom_value();
    state.places.insert(1);
    let call = Terminator::Call {
        args: vec![Operand::Constant],
        destination: Some(Place::whole(1)),
    };
    let before = after_terminator(&analysis, &state, &call, at(5));
    assert_eq!(before.places.to_vec(), vec![1]);
    assert!(!before.statement_relevant);
    assert_eq!(before.path_relevant, Relevant::No);
}

#[test]
fn switch_on_a_relevant_path_matters() {
    let analysis = Body::of_locals(3).analysis();
    let mut state = analysis.bottom_value();
    state.path_relevant = Relevant::Yes;
    let switch = Terminator::SwitchInt { discr: Operand::Move(Place::whole(2)) };
    let before = after_terminator(&analysis, &state, &switch, at(5));
    assert_eq!(before.places.to_vec(), vec![2]);
    assert_eq!(before.path_relevant, Relevant::Yes);
    let on_constant = Terminator::SwitchInt { discr: Operand::Constant };
    let before = after_terminator(&analysis, &state, &on_constant, at(5));
    assert_eq!(before.places.to_vec(), Vec::<usize>::new());
    assert_eq!(before.path_relevant, Relevant::No);
    for path_relevant in [Relevant::No, Relevant::Unknown] {
        state.path_relevant = path_relevant;
        let before = after_terminator(&analysis, &state, &switch, at(5));
        assert_eq!(before.places.to_vec(), Vec::<usize>::new());
        assert_eq!(before.path_relevant, Relevant::No);
    }
}

#[test]
fn other_terminators_settle_the_path() {
    let analysis = Body::of_locals(3).analysis();
    let mut state = analysis.bottom_value();
    state.places.insert(2);
    state.statement_relevant = true;
    state.path_relevant = Relevant::Yes;
    let before = after_terminator(&analysis, &state, &Terminator::Other, at(5));
    assert_eq!(before.places.to_vec(), vec![2]);
    assert!(!before.statement_relevant);
    assert_eq!(before.path_relevant, Relevant::No);
}

#[test]
fn effects_keep_the_order_and_the_join_of_states() {
    let mut body = Body::of_locals(5);
    body.borrows = vec![BorrowData {
        mutability: Mutability::Mut,
        assigned_place: Place::whole(2),
        borrowed_place: Place::whole(1),
    }];
    body.in_force = vec![0];
    body.chosen = vec![at(1)];
    let analysis = body.analysis();
    let statements = [
        Statement::Assign(Place::whole(1), uses(&[Place::whole(3)])),
        Statement::Assign(Place::whole(2), uses(&[Place::whole(4)])),
        Statement::Assign(Place::whole(3), uses(&[Place::whole(1), Place::whole(2)])),
        Statement::Other,
    ];
    let terminators = [
        Terminator::Call {
            args: vec![Operand::Move(Place::whole(2))],
            destination: Some(Place::whole(3)),
        },
        Terminator::SwitchInt { discr: Operand::Copy(Place::whole(2)) },
        Terminator::Other,
    ];
    for left in 0..32usize {
        for right in 0..32usize {
            let mut a = analysis.bottom_value();
            let mut b = analysis.bottom_value();
            for p in 0..5 {
                if left >> p & 1 == 1 {
                    a.places.insert(p);
                }
                if right >> p & 1 == 1 {
                    b.places.insert(p);
                }
            }
            a.path_relevant = if left % 3 == 0 { Relevant::Yes } else { Relevant::No };
            let mut both = a.clone();
            both.join(&b);
            for point in 0..2 {
                for statement in &statements {
                    let together = after(&analysis, &both, statement, at(point));
                    let alone = after(&analysis, &a, statement, at(point));
                    let mut apart = alone.clone();
                    apart.join(&after(&analysis, &b, statement, at(point)));
                    assert_eq!(together.places, apart.places);
                    assert_eq!(together.path_relevant, apart.path_relevant);
                    assert!(together.places.is_superset(&alone.places));
                }
                for terminator in &terminators {
                    let together = after_terminator(&analysis, &both, terminator, at(point));
                    let alone = after_terminator(&analysis, &a, terminator, at(point));
                    let mut apart = alone.clone();
                    apart.join(&after_terminator(&analysis, &b, terminator, at(point)));
                    assert_eq!(together.places, apart.places);
                    assert_eq!(together.path_relevant, apart.path_relevant);
                    assert!(together.places.is_superset(&alone.places));
                }
            }
        }
    }
}

#[test]
fn tables_that_do_not_fit_are_noticed() {
    let mut body = Body::of_locals(3);
    body.borrows = vec![BorrowData {
        mutability: Mutability::Mut,
        assigned_place: Place::whole(2),
        borrowed_place: Place::whole(1),
    }];
    let mut analysis = body.analysis();
    assert!(!analysis.knows_statement(
        &Statement::Assign(Place::whole(7), uses(&[])),
        at(0)
    ));
    assert!(!analysis.knows_statement(&Statement::Other, at(POINTS)));
    assert!(!analysis.knows_terminator(
        &Terminator::SwitchInt { discr: Operand::Copy(Place::whole(7)) },
        at(0)
    ));
    analysis.facts.conflicts[1].pop();
    assert!(!analysis.tables_fit());
    analysis.facts.conflicts[1].push(false);
    assert!(analysis.tables_fit());
    analysis.aliases.blocks[0].pop();
    assert!(!analysis.tables_fit());
}

#[test]
fn transfer_function_step_by_step() {
    let mut body = Body::of_locals(4);
    body.chosen = vec![at(1)];
    let analysis = body.analysis();
    let transfer = TransferFunction { analysis: &analysis };
    let mut state = analysis.bottom_value();
    transfer.visit_place(&mut state, &Place::whole(2), at(0));
    assert_eq!(state, analysis.bottom_value());
    transfer.visit_place(&mut state, &Place::whole(2), at(1));
    assert_eq!(state.places.to_vec(), vec![2]);
    transfer.add_relevant(&mut state, &Place::whole(3));
    assert_eq!(state.places.to_vec(), vec![2, 3]);
    let more = set(&analysis.place_indices, &[Place::whole(0)]);
    assert!(!transfer.any_relevant(&state, &more));
    transfer.add_relevant_many(&mut state, &more);
    assert!(transfer.any_relevant(&state, &more));
    assert_eq!(state.places.to_vec(), vec![0, 2, 3]);
    let mut collector = CollectPlaceIndices {
        places: analysis.place_indices.empty_set(),
        place_indices: &analysis.place_indices,
    };
    collector.visit_rvalue(&uses(&[Place::whole(3), Place::whole(1), Place::whole(3)]));
    collector.visit_place(&Place::whole(0));
    assert_eq!(collector.places.to_vec(), vec![0, 1, 3]);
}

#[test]
fn chosen_statements_are_a_set() {
    let mut chosen = SliceSet::new();
    assert!(!chosen.contains(at(1)));
    assert!(chosen.insert(at(1)));
    assert!(!chosen.insert(at(1)));
    assert!(chosen.contains(at(1)));
    assert!(!chosen.contains(at(2)));
}
