//! What holds of the effects of statements and terminators.

use super::domain::{DomainModel, Relevant};
use super::places::RelevanceAnalysis;
use crate::mir::{Location, Operand, Place, Rvalue, Statement, Terminator};
use vstd::prelude::*;

verus! {

impl RelevanceAnalysis {
    /// More places that matter make no fewer writes matter.
    proof fn lemma_any_relevant_monotone(
        &self,
        fewer: Set<usize>,
        more: Set<usize>,
        mutated: Set<usize>,
    )
        requires
            fewer.subset_of(more),
            self.any_relevant(fewer, mutated),
        ensures
            self.any_relevant(more, mutated),
    {
        let (m, r) = choose|m: usize, r: usize| #[trigger]
            mutated.contains(m) && #[trigger] fewer.contains(r) && (self.is_part(m, r)
                || self.is_part(r, m));
        assert(more.contains(r));
    }

    /// Knowing more after a statement never leads to knowing less before it.
    pub proof fn statement_effect_is_monotone(
        &self,
        less: DomainModel,
        more: DomainModel,
        statement: Statement,
        location: Location,
    )
        requires
            less.le(more),
        ensures
            self.statement_effect(less, statement, location).le(
                self.statement_effect(more, statement, location),
            ),
    {
        match statement {
            Statement::Assign(place, rvalue) => {
                let less = DomainModel { statement_relevant: false, ..less };
                let more = DomainModel { statement_relevant: false, ..more };
                let target = self.place_indices.index_of(place@);
                let less_after = self.chosen_effect(less, place, rvalue, location);
                let more_after = self.chosen_effect(more, place, rvalue, location);
                let mutated = self.reached(location, target);
                self.reached_recursively(location, target, target);
                if self.any_relevant(less_after.places, mutated) {
                    self.lemma_any_relevant_monotone(
                        less_after.places,
                        more_after.places,
                        mutated,
                    );
                } else if mutated == Set::<usize>::empty().insert(target) {
                    // What is overwritten would have made the write matter.
                    assert forall|r: usize| less_after.places.contains(r) implies !self.is_part(
                        r,
                        target,
                    ) by {
                        assert(mutated.contains(target) && less_after.places.contains(r));
                    }
                }
            },
            Statement::Other => {},
        }
    }

    /// Knowing more after a terminator never leads to knowing less before it.
    pub proof fn terminator_effect_is_monotone(
        &self,
        less: DomainModel,
        more: DomainModel,
        terminator: Terminator,
        location: Location,
    )
        requires
            less.le(more),
        ensures
            self.terminator_effect(less, terminator, location).le(
                self.terminator_effect(more, terminator, location),
            ),
    {
        if let Terminator::Call { args, destination } = terminator {
            if self.call_matters(less.places, args@, destination, location) {
                if exists|k: int|
                    0 <= k < args@.len() && (#[trigger] args@[k]).read() is Some
                        && self.any_relevant(
                        less.places,
                        self.reached(location, self.place_indices.index_of(args@[k].read()->0)),
                    ) {
                    let k = choose|k: int|
                        0 <= k < args@.len() && (#[trigger] args@[k]).read() is Some
                            && self.any_relevant(
                            less.places,
                            self.reached(
                                location,
                                self.place_indices.index_of(args@[k].read()->0),
                            ),
                        );
                    self.lemma_any_relevant_monotone(
                        less.places,
                        more.places,
                        self.reached(location, self.place_indices.index_of(args@[k].read()->0)),
                    );
                } else {
                    self.lemma_any_relevant_monotone(
                        less.places,
                        more.places,
                        self.reached(location, self.place_indices.index_of(destination->0@)),
                    );
                }
                assert(self.call_matters(more.places, args@, destination, location));
            }
        }
        let fewer_reads = self.terminator_reads(less, terminator, location);
        let more_reads = self.terminator_reads(more, terminator, location);
        assert(fewer_reads.subset_of(more_reads));
        if fewer_reads != Set::<usize>::empty() {
            assert(exists|q: usize| fewer_reads.contains(q)) by {
                if forall|q: usize| !fewer_reads.contains(q) {
                    assert(fewer_reads =~= Set::<usize>::empty());
                }
            }
            let q = choose|q: usize| fewer_reads.contains(q);
            assert(more_reads.contains(q));
        }
    }

    /// A chosen assignment matters, and so does every place that its right-hand
    /// side mentions.
    pub proof fn chosen_assignment_matters(
        &self,
        state: DomainModel,
        place: Place,
        rvalue: Rvalue,
        location: Location,
    )
        requires
            self.slice_set@.contains(location),
        ensures
            ({
                let before = self.statement_effect(
                    state,
                    Statement::Assign(place, rvalue),
                    location,
                );
                &&& before.statement_relevant
                &&& before.path_relevant == Relevant::Yes
                &&& self.mentioned(rvalue).subset_of(before.places)
            }),
    {
    }

    /// An assignment matters if and only if it is chosen or may write a place that
    /// matters; one that does not matter leaves the places and the path alone.
    pub proof fn other_assignment_is_ignored(
        &self,
        state: DomainModel,
        place: Place,
        rvalue: Rvalue,
        location: Location,
    )
        ensures
            ({
                let before = self.statement_effect(
                    state,
                    Statement::Assign(place, rvalue),
                    location,
                );
                let matters = self.slice_set@.contains(location) || self.any_relevant(
                    state.places,
                    self.reached(location, self.place_indices.index_of(place@)),
                );
                &&& before.statement_relevant == matters
                &&& !matters ==> before.places == state.places && before.path_relevant
                    == state.path_relevant
            }),
    {
    }

    /// Before an assignment that overwrites its target for certain, a part of the
    /// target matters only as far as the assignment itself uses it.
    pub proof fn overwritten_place_is_dropped(
        &self,
        state: DomainModel,
        place: Place,
        rvalue: Rvalue,
        location: Location,
        part: usize,
    )
        requires
            self.reached(location, self.place_indices.index_of(place@)) == Set::<
                usize,
            >::empty().insert(self.place_indices.index_of(place@)),
            self.is_part(part, self.place_indices.index_of(place@)),
            !self.mentioned(rvalue).contains(part),
            !self.pointers(location, self.place_indices.index_of(place@)).contains(part),
        ensures
            !self.statement_effect(
                state,
                Statement::Assign(place, rvalue),
                location,
            ).places.contains(part),
    {
        let target = self.place_indices.index_of(place@);
        let fresh = DomainModel { statement_relevant: false, ..state };
        let after = self.chosen_effect(fresh, place, rvalue, location);
        let mutated = self.reached(location, target);
        if after.places.contains(part) {
            assert(mutated.contains(target) && after.places.contains(part));
            assert(self.any_relevant(after.places, mutated));
        }
    }

    /// Before a terminator the path matters if and only if the terminator does, no
    /// place is dropped, and nothing is left unknown.
    pub proof fn terminator_settles_path(
        &self,
        state: DomainModel,
        terminator: Terminator,
        location: Location,
    )
        ensures
            ({
                let before = self.terminator_effect(state, terminator, location);
                &&& before.path_relevant == Relevant::Yes <==> before.statement_relevant
                &&& before.path_relevant != Relevant::Unknown
                &&& state.places.subset_of(before.places)
            }),
    {
    }

    /// Applying a statement to what two paths know together gives what it gives on
    /// each of them, joined.
    pub proof fn statement_effect_distributes(
        &self,
        a: DomainModel,
        b: DomainModel,
        statement: Statement,
        location: Location,
    )
        ensures
            ({
                let together = self.statement_effect(a.joined(b), statement, location);
                let apart = self.statement_effect(a, statement, location).joined(
                    self.statement_effect(b, statement, location),
                );
                &&& together.places == apart.places
                &&& together.path_relevant == apart.path_relevant
            }),
    {
        let together = self.statement_effect(a.joined(b), statement, location);
        let apart = self.statement_effect(a, statement, location).joined(
            self.statement_effect(b, statement, location),
        );
        if let Statement::Assign(place, rvalue) = statement {
            let a0 = DomainModel { statement_relevant: false, ..a };
            let b0 = DomainModel { statement_relevant: false, ..b };
            let ab0 = DomainModel { statement_relevant: false, ..a.joined(b) };
            let target = self.place_indices.index_of(place@);
            let a1 = self.chosen_effect(a0, place, rvalue, location).places;
            let b1 = self.chosen_effect(b0, place, rvalue, location).places;
            let ab1 = self.chosen_effect(ab0, place, rvalue, location).places;
            let mutated = self.reached(location, target);
            assert(ab1 =~= a1.union(b1));
            self.lemma_any_relevant_union(a1, b1, mutated);
            if mutated == Set::<usize>::empty().insert(target) {
                assert(mutated.contains(target));
                assert forall|r: usize|
                    #![trigger a1.contains(r)]
                    a1.contains(r) && self.is_part(r, target) implies self.any_relevant(
                    a1,
                    mutated,
                ) by {
                    assert(mutated.contains(target) && a1.contains(r));
                }
                assert forall|r: usize|
                    #![trigger b1.contains(r)]
                    b1.contains(r) && self.is_part(r, target) implies self.any_relevant(
                    b1,
                    mutated,
                ) by {
                    assert(mutated.contains(target) && b1.contains(r));
                }
            }
        }
        assert(together.places =~= apart.places);
    }

    /// Applying a terminator to what two paths know together gives what it gives on
    /// each of them, joined.
    pub proof fn terminator_effect_distributes(
        &self,
        a: DomainModel,
        b: DomainModel,
        terminator: Terminator,
        location: Location,
    )
        ensures
            ({
                let together = self.terminator_effect(a.joined(b), terminator, location);
                let apart = self.terminator_effect(a, terminator, location).joined(
                    self.terminator_effect(b, terminator, location),
                );
                &&& together.places == apart.places
                &&& together.path_relevant == apart.path_relevant
            }),
    {
        let ab = a.joined(b);
        if let Terminator::Call { args, destination } = terminator {
            assert forall|k: int|
                0 <= k < args@.len() && (#[trigger] args@[k]).read() is Some implies (
            self.any_relevant(
                ab.places,
                self.reached(location, self.place_indices.index_of(args@[k].read()->0)),
            ) <==> self.any_relevant(
                a.places,
                self.reached(location, self.place_indices.index_of(args@[k].read()->0)),
            ) || self.any_relevant(
                b.places,
                self.reached(location, self.place_indices.index_of(args@[k].read()->0)),
            )) by {
                self.lemma_any_relevant_union(
                    a.places,
                    b.places,
                    self.reached(location, self.place_indices.index_of(args@[k].read()->0)),
                );
            }
            if let Some(place) = destination {
                self.lemma_any_relevant_union(
                    a.places,
                    b.places,
                    self.reached(location, self.place_indices.index_of(place@)),
                );
            }
            assert(self.call_matters(ab.places, args@, destination, location)
                <==> self.call_matters(a.places, args@, destination, location)
                || self.call_matters(b.places, args@, destination, location));
        }
        let more = self.terminator_reads(ab, terminator, location);
        let more_a = self.terminator_reads(a, terminator, location);
        let more_b = self.terminator_reads(b, terminator, location);
        assert(more =~= more_a.union(more_b));
        if more_a == Set::<usize>::empty() && more_b == Set::<usize>::empty() {
            assert(more =~= Set::<usize>::empty());
        } else {
            assert(more == more_a || more == more_b);
        }
        assert(self.terminator_effect(ab, terminator, location).places
            =~= self.terminator_effect(a, terminator, location).places.union(
            self.terminator_effect(b, terminator, location).places,
        ));
    }

    /// A write matters to two sets of places together if and only if it matters to
    /// one of them.
    proof fn lemma_any_relevant_union(&self, a: Set<usize>, b: Set<usize>, mutated: Set<usize>)
        ensures
            self.any_relevant(a.union(b), mutated) <==> self.any_relevant(a, mutated)
                || self.any_relevant(b, mutated),
    {
        if self.any_relevant(a.union(b), mutated) {
            let (m, r) = choose|m: usize, r: usize| #[trigger]
                mutated.contains(m) && #[trigger] a.union(b).contains(r) && (self.is_part(m, r)
                    || self.is_part(r, m));
            assert(a.contains(r) || b.contains(r));
        }
        if self.any_relevant(a, mutated) {
            self.lemma_any_relevant_monotone(a, a.union(b), mutated);
        }
        if self.any_relevant(b, mutated) {
            self.lemma_any_relevant_monotone(b, a.union(b), mutated);
        }
    }
}

} // verus!
