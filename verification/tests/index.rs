use rust_slicer::index_matrix::IndexMatrix;
use rust_slicer::index_set::IndexSet;
use rust_slicer::mir::{
    Location, LocationIndices, Operand, Place, PlaceElem, PlaceIndices, PointTable,
};

fn set(domain: usize, elements: &[usize]) -> IndexSet {
    let mut set = IndexSet::new(domain);
    for i in elements {
        set.insert(*i);
    }
    set
}

#[test]
fn sets_hold_what_was_put_in() {
    let mut s = IndexSet::new(5);
    assert_eq!(s.domain_len(), 5);
    assert_eq!(s.len(), 0);
    assert!(s.insert(3));
    assert!(!s.insert(3));
    assert!(s.insert(0));
    assert!(s.contains(3) && s.contains(0) && !s.contains(1));
    assert_eq!(s.to_vec(), vec![0, 3]);
    assert_eq!(s.len(), 2);
    assert!(s.remove(3));
    assert!(!s.remove(3));
    assert_eq!(s.to_vec(), vec![0]);
}

#[test]
fn union_says_whether_it_added() {
    let mut s = set(4, &[0, 2]);
    assert!(!s.union(&set(4, &[2])));
    assert!(s.union(&set(4, &[2, 3])));
    assert_eq!(s, set(4, &[0, 2, 3]));
}

#[test]
fn supersets() {
    assert!(set(4, &[0, 2]).is_superset(&set(4, &[2])));
    assert!(set(4, &[0, 2]).is_superset(&set(4, &[])));
    assert!(!set(4, &[0, 2]).is_superset(&set(4, &[1, 2])));
}

#[test]
fn rows_of_a_matrix() {
    let matrix = IndexMatrix { rows: vec![Some(set(3, &[1])), None] };
    assert!(matrix.is_shaped(2, 3));
    assert!(!matrix.is_shaped(2, 4));
    assert!(!matrix.is_shaped(3, 3));
    assert_eq!(matrix.row_set(0), Some(&set(3, &[1])));
    assert_eq!(matrix.row_set(1), None);
}

#[test]
fn places_are_numbered_once() {
    let mut places = PlaceIndices::new();
    let field = Place { local: 1, projection: vec![PlaceElem::Field(2)] };
    assert_eq!(places.add(Place::whole(1)), 0);
    assert_eq!(places.add(field.clone()), 1);
    assert_eq!(places.add(Place::whole(1)), 0);
    assert_eq!(places.len(), 2);
    assert_eq!(places.index(&field), 1);
    assert_eq!(places.find(&Place::whole(2)), None);
    assert_eq!(places.lookup(1), &field);
    assert_eq!(places.empty_set().domain_len(), 2);
}

#[test]
fn points_are_numbered_once() {
    let at = |block: usize, statement_index: usize| Location { block, statement_index };
    let mut points = LocationIndices::new();
    assert_eq!(points.add(at(0, 0)), 0);
    assert_eq!(points.add(at(1, 0)), 1);
    assert_eq!(points.add(at(0, 0)), 0);
    assert_eq!(points.len(), 2);
    assert_eq!(points.index(at(1, 0)), 1);
    assert_eq!(points.find(at(1, 1)), None);
    assert_eq!(points.lookup(0), at(0, 0));
    assert_eq!(points.empty_set().domain_len(), 2);
}

#[test]
fn places_and_what_they_point_to() {
    let place = Place { local: 3, projection: vec![PlaceElem::Field(1)] };
    assert_eq!(
        place.deref(),
        Place { local: 3, projection: vec![PlaceElem::Field(1), PlaceElem::Deref] }
    );
    assert!(place.same(&place.clone()));
    assert!(!place.same(&place.deref()));
    assert!(!place.same(&Place { local: 3, projection: vec![PlaceElem::Field(2)] }));
    assert_eq!(Place::return_place(), Place::whole(0));
}

#[test]
fn operands_read_places() {
    assert_eq!(Operand::Move(Place::whole(1)).place(), Some(&Place::whole(1)));
    assert_eq!(Operand::Copy(Place::whole(2)).place(), Some(&Place::whole(2)));
    assert_eq!(Operand::Constant.place(), None);
}

#[test]
fn tables_of_points() {
    let table = PointTable { blocks: vec![vec![1, 2], vec![3]] };
    let at = |block: usize, statement_index: usize| Location { block, statement_index };
    assert!(table.has(at(1, 0)) && !table.has(at(1, 1)) && !table.has(at(2, 0)));
    assert_eq!(*table.at(at(0, 1)), 2);
}
