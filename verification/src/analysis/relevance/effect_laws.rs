//! What holds of each place before a statement or a terminator.

use super::domain::{DomainModel, Relevant};
use super::places::RelevanceAnalysis;
use crate::mir::{Location, Operand, Place, PlaceModel, Rvalue, Statement, Terminator};
use vstd::prelude::*;

verus! {

/// Joining two states place by place: what matters in either matters. The path
/// matters if it does in either, nothing is known of it if nothing is in both, and
/// what was found of the last statement stays.
pub proof fn join_place_by_place(a: DomainModel, b: DomainModel, place: usize)
    ensures
        a.joined(b).places.contains(place) <==> a.places.contains(place) || b.places.contains(
            place,
        ),
        a.joined(b).path_relevant == Relevant::Yes <==> a.path_relevant == Relevant::Yes
            || b.path_relevant == Relevant::Yes,
        a.joined(b).path_relevant == Relevant::Unknown <==> a.path_relevant == Relevant::Unknown
            && b.path_relevant == Relevant::Unknown,
        a.joined(b).statement_relevant == a.statement_relevant,
{
}

/// Whether an operand reads a place, by moving or by copying it.
pub open spec fn reads(operand: Operand, place: PlaceModel) -> bool {
    match operand {
        Operand::Move(p) => p@ == place,
        Operand::Copy(p) => p@ == place,
        Operand::Constant => false,
    }
}

impl RelevanceAnalysis {
    /// Whether one of two places is a part of the other.
    pub open spec fn overlap(&self, a: usize, b: usize) -> bool {
        self.is_part(a, b) || self.is_part(b, a)
    }

    /// Whether a write to `place` may change the place with number `changed`.
    pub open spec fn may_change(
        &self,
        place: PlaceModel,
        location: Location,
        changed: usize,
    ) -> bool {
        self.reached(location, self.place_indices.index_of(place)).contains(changed)
    }

    /// Whether a write to `place` may change a place that overlaps one that matters.
    pub open spec fn write_is_seen(
        &self,
        relevant: Set<usize>,
        place: PlaceModel,
        location: Location,
    ) -> bool {
        exists|changed: usize, seen: usize|
            #![trigger self.may_change(place, location, changed), relevant.contains(seen)]
            self.may_change(place, location, changed)
                && relevant.contains(seen) && self.overlap(changed, seen)
    }

    /// A statement or a terminator can be looked at if every place that it reads or
    /// writes is numbered, whichever these are.
    pub proof fn numbered_statements_can_be_looked_at(
        &self,
        place: Place,
        rvalue: Rvalue,
        args: Vec<Operand>,
        destination: Option<Place>,
    )
        requires
            self.place_indices.has(place@),
            forall|k: int|
                0 <= k < rvalue.places@.len() ==> self.place_indices.has(
                    (#[trigger] rvalue.places@[k])@,
                ),
            forall|k: int, read: PlaceModel|
                0 <= k < args@.len() && #[trigger] reads(args@[k], read) ==> self.place_indices.has(
                    read,
                ),
            destination is Some ==> self.place_indices.has(destination->0@),
        ensures
            self.statement_numbered(Statement::Assign(place, rvalue)),
            self.statement_numbered(Statement::Other),
            self.terminator_numbered(Terminator::Call { args, destination }),
            self.terminator_numbered(Terminator::SwitchInt { discr: Operand::Move(place) }),
            self.terminator_numbered(Terminator::SwitchInt { discr: Operand::Copy(place) }),
            self.terminator_numbered(Terminator::SwitchInt { discr: Operand::Constant }),
            self.terminator_numbered(Terminator::Other),
    {
        assert forall|k: int| 0 <= k < args@.len() implies self.operand_numbered(
            #[trigger] args@[k],
        ) by {
            if let Some(read) = args@[k].read() {
                assert(reads(args@[k], read));
            }
        }
    }

    /// If an assignment may write a place that matters, or is chosen, it matters, and
    /// so does the path and, before it, every place that its right-hand side reads,
    /// also one that the assignment overwrites. If it may write a place that matters,
    /// the pointers that it writes through matter too.
    pub proof fn assignment_that_matters_makes_what_it_reads_matter(
        &self,
        state: DomainModel,
        place: Place,
        rvalue: Rvalue,
        location: Location,
    )
        ensures
            ({
                let before = self.statement_effect(
                    state,
                    Statement::Assign(place, rvalue),
                    location,
                );
                let chosen = self.slice_set@.contains(location);
                let seen = self.write_is_seen(state.places, place@, location);
                let target = self.place_indices.index_of(place@);
                &&& chosen || seen ==> before.statement_relevant && before.path_relevant
                    == Relevant::Yes && forall|k: int|
                    0 <= k < rvalue.places@.len() ==> before.places.contains(
                        self.place_indices.index_of((#[trigger] rvalue.places@[k])@),
                    )
                &&& seen || chosen && self.is_part(target, target) ==> self.pointers(
                    location,
                    target,
                ).subset_of(before.places)
            }),
    {
        let target = self.place_indices.index_of(place@);
        let fresh = DomainModel { statement_relevant: false, ..state };
        let after = self.chosen_effect(fresh, place, rvalue, location);
        let mutated = self.reached(location, target);
        self.reached_recursively(location, target, target);
        if self.write_is_seen(state.places, place@, location) {
            let (changed, seen) = choose|changed: usize, seen: usize|
                #![trigger self.may_change(place@, location, changed), state.places.contains(seen)]
                self.may_change(place@, location, changed)
                    && state.places.contains(seen) && self.overlap(changed, seen);
            assert(mutated.contains(changed) && after.places.contains(seen));
            assert(self.any_relevant(after.places, mutated));
        }
        if self.slice_set@.contains(location) && self.is_part(target, target) {
            assert(mutated.contains(target) && after.places.contains(target));
            assert(self.any_relevant(after.places, mutated));
        }
        assert forall|k: int| 0 <= k < rvalue.places@.len() implies self.mentioned(rvalue).contains(
            self.place_indices.index_of((#[trigger] rvalue.places@[k])@),
        ) by {}
    }

    /// An assignment that is not chosen and may write no place that matters changes
    /// neither the places nor the path, and does not matter.
    pub proof fn assignment_that_does_not_matter_changes_nothing(
        &self,
        state: DomainModel,
        place: Place,
        rvalue: Rvalue,
        location: Location,
    )
        requires
            !self.slice_set@.contains(location),
            !self.write_is_seen(state.places, place@, location),
        ensures
            self.statement_effect(state, Statement::Assign(place, rvalue), location) == (
            DomainModel { statement_relevant: false, ..state }),
    {
        let mutated = self.reached(location, self.place_indices.index_of(place@));
        if self.any_relevant(state.places, mutated) {
            let (m, r) = choose|m: usize, r: usize| #[trigger]
                mutated.contains(m) && #[trigger] state.places.contains(r) && (self.is_part(m, r)
                    || self.is_part(r, m));
            assert(self.may_change(place@, location, m) && self.overlap(m, r));
        }
    }

    /// Before an assignment every place that mattered after it still matters, unless
    /// it is a part of the target and the target is all that the assignment may
    /// write. If the assignment is chosen, the same is so of its target.
    pub proof fn assignment_drops_only_what_it_overwrites(
        &self,
        state: DomainModel,
        place: Place,
        rvalue: Rvalue,
        location: Location,
        other: usize,
        changed: usize,
    )
        requires
            state.places.contains(other) || self.slice_set@.contains(location) && other
                == self.place_indices.index_of(place@),
            !self.is_part(other, self.place_indices.index_of(place@)) || self.reached(
                location,
                self.place_indices.index_of(place@),
            ).contains(changed) && changed != self.place_indices.index_of(place@),
        ensures
            self.statement_effect(
                state,
                Statement::Assign(place, rvalue),
                location,
            ).places.contains(other),
    {
        let target = self.place_indices.index_of(place@);
        let mutated = self.reached(location, target);
        if self.reached(location, target).contains(changed) && changed != target {
            assert(mutated != Set::<usize>::empty().insert(target)) by {
                assert(!Set::<usize>::empty().insert(target).contains(changed));
            }
        }
    }

    /// Before an assignment that may write nothing but its target, a part of the
    /// target does not matter, unless the right-hand side reads it or it is a pointer
    /// that the assignment writes through.
    pub proof fn assignment_drops_what_it_overwrites(
        &self,
        state: DomainModel,
        place: Place,
        rvalue: Rvalue,
        location: Location,
        part: usize,
    )
        requires
            forall|changed: usize| #[trigger]
                self.may_change(place@, location, changed)
                    ==> changed == self.place_indices.index_of(place@),
            self.is_part(part, self.place_indices.index_of(place@)),
            forall|k: int|
                0 <= k < rvalue.places@.len() ==> self.place_indices.index_of(
                    (#[trigger] rvalue.places@[k])@,
                ) != part,
            !self.pointers(location, self.place_indices.index_of(place@)).contains(part),
        ensures
            !self.statement_effect(
                state,
                Statement::Assign(place, rvalue),
                location,
            ).places.contains(part),
    {
        let target = self.place_indices.index_of(place@);
        self.reached_recursively(location, target, target);
        assert forall|q: usize| self.reached(location, target).contains(q) <==> q == target by {
            if self.reached(location, target).contains(q) {
                assert(self.may_change(place@, location, q));
            }
        }
        assert(self.reached(location, target) =~= Set::<usize>::empty().insert(target));
        self.overwritten_place_is_dropped(state, place, rvalue, location, part);
    }

    /// Before an assignment nothing matters but what mattered after it, what its
    /// right-hand side reads, the pointers that it writes through and, if it is
    /// chosen, its target.
    pub proof fn assignment_adds_only_what_it_uses(
        &self,
        state: DomainModel,
        place: Place,
        rvalue: Rvalue,
        location: Location,
        found: usize,
    )
        requires
            self.statement_effect(
                state,
                Statement::Assign(place, rvalue),
                location,
            ).places.contains(found),
        ensures
            ({
                let target = self.place_indices.index_of(place@);
                ||| state.places.contains(found)
                ||| exists|k: int|
                    0 <= k < rvalue.places@.len() && self.place_indices.index_of(
                        (#[trigger] rvalue.places@[k])@,
                    ) == found
                ||| self.pointers(location, target).contains(found)
                ||| self.slice_set@.contains(location) && found == target
            }),
    {
    }

    /// A statement that assigns nothing does not matter and changes nothing else.
    pub proof fn other_statement_changes_nothing(&self, state: DomainModel, location: Location)
        ensures
            self.statement_effect(state, Statement::Other, location) == (DomainModel {
                statement_relevant: false,
                ..state
            }),
    {
    }

    /// A call matters if it may write a place that matters, through one of its
    /// arguments or to its destination, whatever the other is. Then every place that
    /// its arguments read matters before it; the call and the path matter if there is
    /// one.
    pub proof fn call_that_may_write_makes_its_arguments_matter(
        &self,
        state: DomainModel,
        args: Vec<Operand>,
        destination: Option<Place>,
        location: Location,
        written: PlaceModel,
        writer: int,
        reader: int,
        place: PlaceModel,
    )
        requires
            0 <= writer < args@.len() && reads(args@[writer], written) || destination is Some
                && destination->0@ == written,
            self.write_is_seen(state.places, written, location),
            0 <= reader < args@.len(),
            reads(args@[reader], place),
        ensures
            ({
                let before = self.terminator_effect(
                    state,
                    Terminator::Call { args, destination },
                    location,
                );
                &&& before.places.contains(self.place_indices.index_of(place))
                &&& before.statement_relevant
                &&& before.path_relevant == Relevant::Yes
            }),
    {
        let index = self.place_indices.index_of(written);
        let mutated = self.reached(location, index);
        let (changed, seen) = choose|changed: usize, seen: usize|
            #![trigger self.may_change(written, location, changed), state.places.contains(seen)]
            self.may_change(written, location, changed)
                && state.places.contains(seen) && self.overlap(changed, seen);
        assert(mutated.contains(changed) && state.places.contains(seen));
        assert(self.any_relevant(state.places, mutated));
        if 0 <= writer < args@.len() && reads(args@[writer], written) {
            assert(args@[writer].read() == Some(written));
        }
        assert(self.call_matters(state.places, args@, destination, location));
        assert(args@[reader].read() == Some(place));
        let more = self.terminator_reads(state, Terminator::Call { args, destination }, location);
        assert(more.contains(self.place_indices.index_of(place)));
    }

    /// A call that may write no place that matters, neither through an argument nor
    /// to its destination, leaves the places alone; neither it nor the path matters.
    pub proof fn call_that_writes_nothing_relevant_is_ignored(
        &self,
        state: DomainModel,
        args: Vec<Operand>,
        destination: Option<Place>,
        location: Location,
    )
        requires
            forall|k: int, place: PlaceModel|
                0 <= k < args@.len() && #[trigger] reads(args@[k], place) ==> !self.write_is_seen(
                    state.places,
                    place,
                    location,
                ),
            destination is Some ==> !self.write_is_seen(state.places, destination->0@, location),
        ensures
            self.terminator_effect(state, Terminator::Call { args, destination }, location) == (
            DomainModel {
                places: state.places,
                statement_relevant: false,
                path_relevant: Relevant::No,
            }),
    {
        assert forall|k: int| 0 <= k < args@.len() && (#[trigger] args@[k]).read() is Some implies
            !self.any_relevant(
            state.places,
            self.reached(location, self.place_indices.index_of(args@[k].read()->0)),
        ) by {
            assert(reads(args@[k], args@[k].read()->0));
            self.lemma_unseen(state.places, args@[k].read()->0, location);
        }
        if let Some(place) = destination {
            self.lemma_unseen(state.places, place@, location);
        }
        assert(self.terminator_effect(
            state,
            Terminator::Call { args, destination },
            location,
        ).places =~= state.places);
    }

    proof fn lemma_unseen(&self, relevant: Set<usize>, place: PlaceModel, location: Location)
        requires
            !self.write_is_seen(relevant, place, location),
        ensures
            !self.any_relevant(
                relevant,
                self.reached(location, self.place_indices.index_of(place)),
            ),
    {
        let mutated = self.reached(location, self.place_indices.index_of(place));
        if self.any_relevant(relevant, mutated) {
            let (m, r) = choose|m: usize, r: usize| #[trigger]
                mutated.contains(m) && #[trigger] relevant.contains(r) && (self.is_part(m, r)
                    || self.is_part(r, m));
            assert(self.may_change(place, location, m) && self.overlap(m, r));
        }
    }

    /// A call drops no place and adds none but what its arguments read. One whose
    /// arguments read no place leaves everything alone but the path, which does not
    /// matter.
    pub proof fn call_adds_only_its_arguments(
        &self,
        state: DomainModel,
        args: Vec<Operand>,
        destination: Option<Place>,
        location: Location,
        found: usize,
    )
        ensures
            ({
                let before = self.terminator_effect(
                    state,
                    Terminator::Call { args, destination },
                    location,
                );
                &&& state.places.contains(found) ==> before.places.contains(found)
                &&& before.places.contains(found) ==> state.places.contains(found) || exists|
                    k: int,
                    place: PlaceModel,
                |
                    0 <= k < args@.len() && #[trigger] reads(args@[k], place)
                        && self.place_indices.index_of(place) == found
                &&& (forall|k: int| 0 <= k < args@.len() ==> #[trigger] args@[k] is Constant)
                    ==> !before.statement_relevant && before.path_relevant == Relevant::No
            }),
    {
        let terminator = Terminator::Call { args, destination };
        let more = self.terminator_reads(state, terminator, location);
        if more.contains(found) {
            let k = choose|k: int|
                0 <= k < args@.len() && (#[trigger] args@[k]).read() is Some && found
                    == self.place_indices.index_of(args@[k].read()->0);
            assert(reads(args@[k], args@[k].read()->0));
        }
        if forall|k: int| 0 <= k < args@.len() ==> #[trigger] args@[k] is Constant {
            assert(more =~= Set::<usize>::empty());
        }
    }

    /// A switch on a place matters if the path does. Then what a write to the place
    /// may change matters before it, and so does the path. A switch on a path that
    /// does not matter, or of which nothing is known, and one on a constant, leave the
    /// places alone, and the path does not matter.
    pub proof fn switch_matters_with_its_path(
        &self,
        state: DomainModel,
        discr: Operand,
        location: Location,
        place: PlaceModel,
        q: usize,
    )
        ensures
            ({
                let before = self.terminator_effect(
                    state,
                    Terminator::SwitchInt { discr },
                    location,
                );
                let matters = state.path_relevant == Relevant::Yes;
                &&& matters && reads(discr, place) ==> {
                    &&& before.places.contains(q) <==> state.places.contains(q) || self.reached(
                        location,
                        self.place_indices.index_of(place),
                    ).contains(q)
                    &&& before.statement_relevant
                    &&& before.path_relevant == Relevant::Yes
                }
                &&& !matters || discr is Constant ==> before == (DomainModel {
                    places: state.places,
                    statement_relevant: false,
                    path_relevant: Relevant::No,
                })
            }),
    {
        let terminator = Terminator::SwitchInt { discr };
        let before = self.terminator_effect(state, terminator, location);
        let more = self.terminator_reads(state, terminator, location);
        if state.path_relevant == Relevant::Yes && reads(discr, place) {
            let index = self.place_indices.index_of(place);
            assert(discr.read() == Some(place));
            self.reached_recursively(location, index, index);
            assert(more.contains(index));
        }
        if state.path_relevant != Relevant::Yes || discr is Constant {
            assert(before.places =~= state.places);
        }
    }

    /// Before any other terminator the same places matter, and the path does not.
    pub proof fn other_terminator_ends_the_path(&self, state: DomainModel, location: Location)
        ensures
            self.terminator_effect(state, Terminator::Other, location) == (DomainModel {
                places: state.places,
                statement_relevant: false,
                path_relevant: Relevant::No,
            }),
    {
        assert(self.terminator_effect(state, Terminator::Other, location).places =~= state.places);
    }
}

} // verus!
