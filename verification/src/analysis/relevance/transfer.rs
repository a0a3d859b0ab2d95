//! What a statement and a terminator make of what is known after them.

use super::domain::{DomainModel, Relevant, RelevanceDomain};
use super::places::RelevanceAnalysis;
use crate::mir::{Location, Operand, Place, PlaceIndices, PlaceSet, Rvalue, Statement, Terminator};
use vstd::prelude::*;

verus! {

impl RelevanceAnalysis {
    /// Whether writing to one of `mutated` may be seen at one of `relevant`, or the
    /// other way round.
    pub open spec fn any_relevant(&self, relevant: Set<usize>, mutated: Set<usize>) -> bool {
        exists|m: usize, r: usize| #[trigger]
            mutated.contains(m) && #[trigger] relevant.contains(r) && (self.is_part(m, r)
                || self.is_part(r, m))
    }

    /// The numbers of the places that a right-hand side mentions.
    pub open spec fn mentioned(&self, rvalue: Rvalue) -> Set<usize> {
        Set::new(
            |q: usize|
                exists|k: int|
                    0 <= k < rvalue.places@.len() && q == self.place_indices.index_of(
                        (#[trigger] rvalue.places@[k])@,
                    ),
        )
    }

    /// The numbers of the places that operands read.
    pub open spec fn read_by(&self, args: Seq<Operand>) -> Set<usize> {
        Set::new(
            |q: usize|
                exists|k: int|
                    0 <= k < args.len() && (#[trigger] args[k]).read() is Some && q
                        == self.place_indices.index_of(args[k].read()->0),
        )
    }

    /// Whether every place of a statement is numbered.
    pub open spec fn statement_numbered(&self, statement: Statement) -> bool {
        statement matches Statement::Assign(place, rvalue) ==> self.assign_numbered(place, rvalue)
    }

    /// Whether both sides of an assignment are numbered.
    pub open spec fn assign_numbered(&self, place: Place, rvalue: Rvalue) -> bool {
        &&& self.place_indices.has(place@)
        &&& forall|k: int|
            0 <= k < rvalue.places@.len() ==> self.place_indices.has(
                (#[trigger] rvalue.places@[k])@,
            )
    }

    /// Whether what an operand reads is numbered.
    pub open spec fn operand_numbered(&self, operand: Operand) -> bool {
        operand.read() matches Some(place) ==> self.place_indices.has(place)
    }

    /// Whether what operands read is numbered.
    pub open spec fn args_numbered(&self, args: Seq<Operand>) -> bool {
        forall|k: int| 0 <= k < args.len() ==> self.operand_numbered(#[trigger] args[k])
    }

    /// Whether every place of a terminator is numbered.
    pub open spec fn terminator_numbered(&self, terminator: Terminator) -> bool {
        match terminator {
            Terminator::Call { args, destination } => {
                &&& self.args_numbered(args@)
                &&& destination matches Some(place) ==> self.place_indices.has(place@)
            },
            Terminator::SwitchInt { discr } => self.operand_numbered(discr),
            Terminator::Other => true,
        }
    }

    /// What is known before an assignment that is one of the chosen statements:
    /// every place of it matters.
    pub open spec fn chosen_effect(
        &self,
        state: DomainModel,
        place: Place,
        rvalue: Rvalue,
        location: Location,
    ) -> DomainModel {
        if self.slice_set@.contains(location) {
            state.adding(self.mentioned(rvalue).insert(self.place_indices.index_of(place@)))
        } else {
            state
        }
    }

    /// What is known before an assignment, given what is known after it.
    ///
    /// An assignment that may write a place that matters passes that on to the
    /// places of its right-hand side, and to the pointers that it writes through.
    /// If it writes one place for certain, what it overwrites no longer matters.
    pub open spec fn assign_effect(
        &self,
        state: DomainModel,
        place: Place,
        rvalue: Rvalue,
        location: Location,
    ) -> DomainModel {
        let target = self.place_indices.index_of(place@);
        let after = self.chosen_effect(state, place, rvalue, location);
        let mutated = self.reached(location, target);
        if self.any_relevant(after.places, mutated) {
            let kept = if mutated == Set::<usize>::empty().insert(target) {
                after.places.filter(|r: usize| !self.is_part(r, target))
            } else {
                after.places
            };
            DomainModel { places: kept, ..after }.adding(
                self.mentioned(rvalue).union(self.pointers(location, target)),
            )
        } else {
            after
        }
    }

    /// What is known before a statement, given what is known after it.
    pub open spec fn statement_effect(
        &self,
        state: DomainModel,
        statement: Statement,
        location: Location,
    ) -> DomainModel {
        let fresh = DomainModel { statement_relevant: false, ..state };
        match statement {
            Statement::Assign(place, rvalue) => self.assign_effect(fresh, place, rvalue, location),
            Statement::Other => fresh,
        }
    }

    /// Whether a call may write a place that matters: its destination, or what is
    /// reached from an argument.
    pub open spec fn call_matters(
        &self,
        relevant: Set<usize>,
        args: Seq<Operand>,
        destination: Option<Place>,
        location: Location,
    ) -> bool {
        ||| exists|k: int|
            0 <= k < args.len() && (#[trigger] args[k]).read() is Some && self.any_relevant(
                relevant,
                self.reached(location, self.place_indices.index_of(args[k].read()->0)),
            )
        ||| destination matches Some(place) && self.any_relevant(
            relevant,
            self.reached(location, self.place_indices.index_of(place@)),
        )
    }

    /// What a terminator makes relevant, given what is known after it.
    pub open spec fn terminator_reads(
        &self,
        state: DomainModel,
        terminator: Terminator,
        location: Location,
    ) -> Set<usize> {
        match terminator {
            Terminator::Call { args, destination } => if self.call_matters(
                state.places,
                args@,
                destination,
                location,
            ) {
                self.read_by(args@)
            } else {
                Set::empty()
            },
            Terminator::SwitchInt { discr } => if state.path_relevant == Relevant::Yes
                && discr.read() is Some {
                self.reached(location, self.place_indices.index_of(discr.read()->0))
            } else {
                Set::empty()
            },
            Terminator::Other => Set::empty(),
        }
    }

    /// What is known before a terminator, given what is known after it.
    ///
    /// A call that may write a place that matters makes its arguments relevant; a
    /// switch on a path that matters, what it switches on. The path matters from
    /// there on if the terminator made anything relevant.
    pub open spec fn terminator_effect(
        &self,
        state: DomainModel,
        terminator: Terminator,
        location: Location,
    ) -> DomainModel {
        let more = self.terminator_reads(state, terminator, location);
        let matters = more != Set::<usize>::empty();
        DomainModel {
            places: state.places.union(more),
            statement_relevant: matters,
            path_relevant: if matters {
                Relevant::Yes
            } else {
                Relevant::No
            },
        }
    }
}

/// Collects the numbers of the places that are visited.
pub struct CollectPlaceIndices<'a> {
    pub places: PlaceSet,
    pub place_indices: &'a PlaceIndices,
}

impl<'a> CollectPlaceIndices<'a> {
    /// Adds a place.
    pub fn visit_place(&mut self, place: &Place)
        requires
            old(self).places.domain_size() == old(self).place_indices@.len(),
            old(self).place_indices.has(place@),
        ensures
            final(self).places@ == old(self).places@.insert(
                old(self).place_indices.index_of(place@),
            ),
            final(self).places.domain_size() == old(self).places.domain_size(),
            final(self).place_indices == old(self).place_indices,
    {
        let index = self.place_indices.index(place);
        self.places.insert(index);
    }

    /// Adds every place that a right-hand side mentions.
    pub fn visit_rvalue(&mut self, rvalue: &Rvalue)
        requires
            old(self).places.domain_size() == old(self).place_indices@.len(),
            forall|k: int|
                0 <= k < rvalue.places@.len() ==> old(self).place_indices.has(
                    (#[trigger] rvalue.places@[k])@,
                ),
        ensures
            forall|q: usize| #[trigger]
                final(self).places@.contains(q) <==> old(self).places@.contains(q) || exists|k: int|
                    0 <= k < rvalue.places@.len() && q == old(self).place_indices.index_of(
                        (#[trigger] rvalue.places@[k])@,
                    ),
            final(self).places.domain_size() == old(self).places.domain_size(),
            final(self).place_indices == old(self).place_indices,
    {
        let mut k: usize = 0;
        while k < rvalue.places.len()
            invariant
                k <= rvalue.places@.len(),
                self.places.domain_size() == old(self).places.domain_size(),
                self.place_indices == old(self).place_indices,
                self.places.domain_size() == self.place_indices@.len(),
                forall|j: int|
                    0 <= j < rvalue.places@.len() ==> self.place_indices.has(
                        (#[trigger] rvalue.places@[j])@,
                    ),
                forall|q: usize| #[trigger]
                    self.places@.contains(q) <==> old(self).places@.contains(q) || exists|j: int|
                        0 <= j < k && q == self.place_indices.index_of(
                            (#[trigger] rvalue.places@[j])@,
                        ),
            decreases rvalue.places@.len() - k,
        {
            let ghost before = self.places@;
            self.visit_place(&rvalue.places[k]);
            proof {
                let added = self.place_indices.index_of(rvalue.places@[k as int]@);
                assert forall|q: usize| #[trigger]
                    self.places@.contains(q) <==> old(self).places@.contains(q) || exists|j: int|
                        0 <= j < k + 1 && q == self.place_indices.index_of(
                            (#[trigger] rvalue.places@[j])@,
                        ) by {
                    if q == added {
                        assert(q == self.place_indices.index_of(rvalue.places@[k as int]@));
                    }
                    assert(self.places@.contains(q) <==> before.contains(q) || q == added);
                }
            }
            k = k + 1;
        }
    }
}

/// The effect of statements and terminators on what is known.
pub struct TransferFunction<'a> {
    pub analysis: &'a RelevanceAnalysis,
}

impl<'a> TransferFunction<'a> {
    /// Adds a place, on account of a statement that matters.
    pub fn add_relevant(&self, state: &mut RelevanceDomain, place: &Place)
        requires
            old(state).places.domain_size() == self.analysis.place_indices@.len(),
            self.analysis.place_indices.has(place@),
        ensures
            final(state)@ == old(state)@.adding(
                Set::<usize>::empty().insert(self.analysis.place_indices.index_of(place@)),
            ),
            final(state).places.domain_size() == old(state).places.domain_size(),
    {
        let index = self.analysis.place_indices.index(place);
        state.places.insert(index);
        state.statement_relevant = true;
        state.path_relevant = Relevant::Yes;
        assert(state@.places =~= old(state)@.places.union(Set::<usize>::empty().insert(index)));
    }

    /// Adds places, on account of a statement that matters.
    pub fn add_relevant_many(&self, state: &mut RelevanceDomain, places: &PlaceSet)
        requires
            old(state).places.domain_size() == places.domain_size(),
        ensures
            final(state)@ == old(state)@.adding(places@),
            final(state).places.domain_size() == old(state).places.domain_size(),
    {
        state.places.union(places);
        state.statement_relevant = true;
        state.path_relevant = Relevant::Yes;
    }

    /// Whether writing to one of `possibly_mutated` may be seen at a place that
    /// matters, or the other way round.
    pub fn any_relevant(
        &self,
        state: &RelevanceDomain,
        possibly_mutated: &PlaceSet,
    ) -> (holds: bool)
        requires
            self.analysis.facts_fit(),
            state.places.domain_size() == self.analysis.place_indices@.len(),
            possibly_mutated.domain_size() == self.analysis.place_indices@.len(),
        ensures
            holds == self.analysis.any_relevant(state.places@, possibly_mutated@),
    {
        let ghost n = self.analysis.place_indices@.len();
        let mutated = possibly_mutated.to_vec();
        let relevant = state.places.to_vec();
        proof {
            possibly_mutated.lemma_finite();
            crate::index_set::lemma_ascending(possibly_mutated@, n);
            crate::index_set::lemma_ascending(state.places@, n);
        }
        let mut i: usize = 0;
        while i < mutated.len()
            invariant
                i <= mutated@.len(),
                self.analysis.facts_fit(),
                n == self.analysis.place_indices@.len(),
                forall|q: usize| #[trigger]
                    mutated@.contains(q) <==> possibly_mutated@.contains(q) && q < n,
                forall|q: usize| #[trigger]
                    relevant@.contains(q) <==> state.places@.contains(q) && q < n,
                forall|k: int, j: int|
                    0 <= k < i && 0 <= j < relevant@.len() ==> !self.analysis.is_part(
                        #[trigger] mutated@[k],
                        #[trigger] relevant@[j],
                    ) && !self.analysis.is_part(relevant@[j], mutated@[k]),
            decreases mutated@.len() - i,
        {
            let m = mutated[i];
            assert(mutated@.contains(m));
            let mut j: usize = 0;
            while j < relevant.len()
                invariant
                    j <= relevant@.len(),
                    self.analysis.facts_fit(),
                    n == self.analysis.place_indices@.len(),
                    m < n,
                    possibly_mutated@.contains(m),
                    forall|q: usize| #[trigger]
                        relevant@.contains(q) <==> state.places@.contains(q) && q < n,
                    forall|k: int|
                        0 <= k < j ==> !self.analysis.is_part(m, #[trigger] relevant@[k])
                            && !self.analysis.is_part(relevant@[k], m),
                decreases relevant@.len() - j,
            {
                let r = relevant[j];
                assert(relevant@.contains(r));
                if self.analysis.place_index_is_part(m, r) || self.analysis.place_index_is_part(
                    r,
                    m,
                ) {
                    assert(state.places@.contains(r));
                    return true;
                }
                j = j + 1;
            }
            i = i + 1;
        }
        proof {
            assert forall|m: usize, r: usize|
                possibly_mutated@.contains(m) && state.places@.contains(r) implies !(
            self.analysis.is_part(m, r) || self.analysis.is_part(r, m)) by {
                possibly_mutated.lemma_in_domain(m);
                state.places.lemma_in_domain(r);
                assert(mutated@.contains(m) && relevant@.contains(r));
                let k = choose|k: int| 0 <= k < mutated@.len() && mutated@[k] == m;
                let j = choose|j: int| 0 <= j < relevant@.len() && relevant@[j] == r;
                assert(!self.analysis.is_part(mutated@[k], relevant@[j]));
            }
        }
        false
    }

    /// Adds a place of a statement, if the statement is one of the chosen ones.
    pub fn visit_place(&self, state: &mut RelevanceDomain, place: &Place, location: Location)
        requires
            old(state).places.domain_size() == self.analysis.place_indices@.len(),
            self.analysis.place_indices.has(place@),
        ensures
            final(state)@ == (if self.analysis.slice_set@.contains(location) {
                old(state)@.adding(
                    Set::<usize>::empty().insert(self.analysis.place_indices.index_of(place@)),
                )
            } else {
                old(state)@
            }),
            final(state).places.domain_size() == old(state).places.domain_size(),
    {
        if self.analysis.slice_set.contains(location) {
            self.add_relevant(state, place);
        }
    }

    /// Visits the places of an assignment: its target, then those that its
    /// right-hand side mentions.
    fn visit_assign_places(
        &self,
        state: &mut RelevanceDomain,
        place: &Place,
        rvalue: &Rvalue,
        location: Location,
    )
        requires
            old(state).places.domain_size() == self.analysis.place_indices@.len(),
            self.analysis.assign_numbered(*place, *rvalue),
        ensures
            final(state)@ == self.analysis.chosen_effect(old(state)@, *place, *rvalue, location),
            final(state).places.domain_size() == old(state).places.domain_size(),
    {
        let ghost chosen = self.analysis.slice_set@.contains(location);
        let ghost target = self.analysis.place_indices.index_of(place@);
        self.visit_place(state, place, location);
        let mut k: usize = 0;
        while k < rvalue.places.len()
            invariant
                k <= rvalue.places@.len(),
                chosen == self.analysis.slice_set@.contains(location),
                state.places.domain_size() == old(state).places.domain_size(),
                state.places.domain_size() == self.analysis.place_indices@.len(),
                self.analysis.assign_numbered(*place, *rvalue),
                !chosen ==> state@ == old(state)@,
                chosen ==> state.statement_relevant && state.path_relevant == Relevant::Yes,
                chosen ==> forall|q: usize| #[trigger]
                    state.places@.contains(q) <==> old(state).places@.contains(q) || q == target
                        || exists|j: int|
                        0 <= j < k && q == self.analysis.place_indices.index_of(
                            (#[trigger] rvalue.places@[j])@,
                        ),
            decreases rvalue.places@.len() - k,
        {
            let ghost before = state.places@;
            self.visit_place(state, &rvalue.places[k], location);
            proof {
                if chosen {
                    let added = self.analysis.place_indices.index_of(rvalue.places@[k as int]@);
                    assert forall|q: usize| #[trigger]
                        state.places@.contains(q) <==> old(state).places@.contains(q) || q == target
                            || exists|j: int|
                            0 <= j < k + 1 && q == self.analysis.place_indices.index_of(
                                (#[trigger] rvalue.places@[j])@,
                            ) by {
                        if q == added {
                            assert(q == self.analysis.place_indices.index_of(
                                rvalue.places@[k as int]@,
                            ));
                        }
                        assert(state.places@.contains(q) <==> before.contains(q) || q == added);
                    }
                }
            }
            k = k + 1;
        }
        assert(state@ =~= self.analysis.chosen_effect(old(state)@, *place, *rvalue, location));
    }

    /// Drops the places that overwriting `target` makes irrelevant.
    fn overwrite(&self, state: &mut RelevanceDomain, target: usize)
        requires
            self.analysis.facts_fit(),
            old(state).places.domain_size() == self.analysis.place_indices@.len(),
            target < self.analysis.place_indices@.len(),
        ensures
            final(state)@ == (DomainModel {
                places: old(state).places@.filter(
                    |r: usize| !self.analysis.is_part(r, target),
                ),
                ..old(state)@
            }),
            final(state).places.domain_size() == old(state).places.domain_size(),
    {
        let ghost n = self.analysis.place_indices@.len();
        let relevant = state.places.to_vec();
        proof {
            state.places.lemma_finite();
            crate::index_set::lemma_ascending(state.places@, n);
        }
        let mut j: usize = 0;
        while j < relevant.len()
            invariant
                j <= relevant@.len(),
                self.analysis.facts_fit(),
                n == self.analysis.place_indices@.len(),
                target < n,
                state.places.domain_size() == n,
                state.statement_relevant == old(state).statement_relevant,
                state.path_relevant == old(state).path_relevant,
                relevant@.no_duplicates(),
                forall|q: usize| #[trigger]
                    relevant@.contains(q) <==> old(state).places@.contains(q) && q < n,
                forall|q: usize| #[trigger]
                    state.places@.contains(q) <==> old(state).places@.contains(q) && !(
                    self.analysis.is_part(q, target) && exists|k: int|
                        0 <= k < j && #[trigger] relevant@[k] == q),
            decreases relevant@.len() - j,
        {
            let r = relevant[j];
            assert(relevant@.contains(r));
            let ghost before = state.places@;
            if self.analysis.place_index_is_part(r, target) {
                state.places.remove(r);
            }
            proof {
                assert forall|q: usize| #[trigger]
                    state.places@.contains(q) <==> old(state).places@.contains(q) && !(
                    self.analysis.is_part(q, target) && exists|k: int|
                        0 <= k < j + 1 && #[trigger] relevant@[k] == q) by {
                    assert(relevant@[j as int] == r);
                    assert(before.contains(q) <==> old(state).places@.contains(q) && !(
                    self.analysis.is_part(q, target) && exists|k: int|
                        0 <= k < j && #[trigger] relevant@[k] == q));
                }
            }
            j = j + 1;
        }
        proof {
            assert forall|q: usize|
                state.places@.contains(q) <==> old(state).places@.contains(q)
                    && !self.analysis.is_part(q, target) by {
                if old(state).places@.contains(q) {
                    old(state).places.lemma_in_domain(q);
                    assert(relevant@.contains(q));
                    let k = choose|k: int| 0 <= k < relevant@.len() && relevant@[k] == q;
                    assert(relevant@[k] == q);
                }
            }
            assert(state.places@ =~= old(state).places@.filter(
                |r: usize| !self.analysis.is_part(r, target),
            ));
        }
    }

    /// Applies an assignment.
    pub fn visit_assign(
        &self,
        state: &mut RelevanceDomain,
        place: &Place,
        rvalue: &Rvalue,
        location: Location,
    )
        requires
            self.analysis.wf(),
            self.analysis.covers(location),
            old(state).places.domain_size() == self.analysis.place_indices@.len(),
            self.analysis.assign_numbered(*place, *rvalue),
        ensures
            final(state)@ == self.analysis.assign_effect(old(state)@, *place, *rvalue, location),
            final(state).places.domain_size() == old(state).places.domain_size(),
    {
        let ghost target = self.analysis.place_indices.index_of(place@);
        self.visit_assign_places(state, place, rvalue, location);
        let ghost after = state@;
        let (possibly_mutated, pointers_to_mutated) = self.analysis.places_and_pointers(
            place,
            location,
        );
        proof {
            self.analysis.reached_recursively(location, target, target);
        }
        if self.any_relevant(state, &possibly_mutated) {
            // A single place is overwritten for certain.
            if possibly_mutated.len() == 1 {
                let definitely_mutated = self.analysis.place_indices.index(place);
                proof {
                    lemma_only_element(possibly_mutated@, target);
                }
                self.overwrite(state, definitely_mutated);
            } else {
                proof {
                    if possibly_mutated@ == Set::<usize>::empty().insert(target) {
                        assert(possibly_mutated@.len() == 1);
                    }
                }
            }
            let ghost kept = state.places@;
            let mut collector = CollectPlaceIndices {
                places: self.analysis.place_indices.empty_set(),
                place_indices: &self.analysis.place_indices,
            };
            collector.visit_rvalue(rvalue);
            assert(collector.places@ =~= self.analysis.mentioned(*rvalue));
            self.add_relevant_many(state, &collector.places);
            self.add_relevant_many(state, &pointers_to_mutated);
            assert(state.places@ =~= kept.union(
                self.analysis.mentioned(*rvalue).union(self.analysis.pointers(location, target)),
            ));
        }
    }

    /// Applies a statement.
    pub fn visit_statement(
        &self,
        state: &mut RelevanceDomain,
        statement: &Statement,
        location: Location,
    )
        requires
            self.analysis.wf(),
            self.analysis.covers(location),
            old(state).places.domain_size() == self.analysis.place_indices@.len(),
            self.analysis.statement_numbered(*statement),
        ensures
            final(state)@ == self.analysis.statement_effect(old(state)@, *statement, location),
            final(state).places.domain_size() == old(state).places.domain_size(),
    {
        state.statement_relevant = false;
        match statement {
            Statement::Assign(place, rvalue) => {
                self.visit_assign(state, place, rvalue, location);
            },
            Statement::Other => {},
        }
    }
}

/// A set of one element that holds `element` holds nothing else.
proof fn lemma_only_element(set: Set<usize>, element: usize)
    requires
        set.finite(),
        set.len() == 1,
        set.contains(element),
    ensures
        set == Set::<usize>::empty().insert(element),
{
    Set::lemma_is_singleton(set);
    assert(set =~= Set::<usize>::empty().insert(element));
}

impl<'a> TransferFunction<'a> {
    /// Whether a call may write a place that matters.
    fn visit_call(
        &self,
        state: &RelevanceDomain,
        args: &Vec<Operand>,
        destination: &Option<Place>,
        location: Location,
    ) -> (matters: bool)
        requires
            self.analysis.wf(),
            self.analysis.covers(location),
            state.places.domain_size() == self.analysis.place_indices@.len(),
            self.analysis.args_numbered(args@),
            destination matches Some(place) ==> self.analysis.place_indices.has(place@),
        ensures
            matters == self.analysis.call_matters(
                state.places@,
                args@,
                *destination,
                location,
            ),
    {
        let mut any_mut_ptrs_to_relevant = false;
        let mut k: usize = 0;
        while k < args.len()
            invariant
                k <= args@.len(),
                self.analysis.wf(),
                self.analysis.covers(location),
                state.places.domain_size() == self.analysis.place_indices@.len(),
                self.analysis.args_numbered(args@),
                any_mut_ptrs_to_relevant == exists|j: int|
                    0 <= j < k && (#[trigger] args@[j]).read() is Some
                        && self.analysis.any_relevant(
                        state.places@,
                        self.analysis.reached(
                            location,
                            self.analysis.place_indices.index_of(args@[j].read()->0),
                        ),
                    ),
            decreases args@.len() - k,
        {
            assert(self.analysis.operand_numbered(args@[k as int]));
            if let Some(place) = args[k].place() {
                let (places, _) = self.analysis.places_and_pointers(place, location);
                if self.any_relevant(state, &places) {
                    any_mut_ptrs_to_relevant = true;
                }
            }
            k = k + 1;
        }
        let dest_relevant = match destination {
            Some(place) => {
                let (possibly_mutated, _) = self.analysis.places_and_pointers(place, location);
                self.any_relevant(state, &possibly_mutated)
            },
            None => false,
        };
        dest_relevant || any_mut_ptrs_to_relevant
    }

    /// Adds what the arguments of a call read.
    fn add_args(&self, state: &mut RelevanceDomain, args: &Vec<Operand>)
        requires
            old(state).places.domain_size() == self.analysis.place_indices@.len(),
            self.analysis.args_numbered(args@),
        ensures
            final(state)@ == (if self.analysis.read_by(args@) == Set::<usize>::empty() {
                old(state)@
            } else {
                old(state)@.adding(self.analysis.read_by(args@))
            }),
            final(state).places.domain_size() == old(state).places.domain_size(),
    {
        let ghost mut any = false;
        let mut k: usize = 0;
        while k < args.len()
            invariant
                k <= args@.len(),
                state.places.domain_size() == old(state).places.domain_size(),
                state.places.domain_size() == self.analysis.place_indices@.len(),
                self.analysis.args_numbered(args@),
                any == exists|j: int| 0 <= j < k && (#[trigger] args@[j]).read() is Some,
                !any ==> state@ == old(state)@,
                any ==> state.statement_relevant && state.path_relevant == Relevant::Yes,
                forall|q: usize| #[trigger]
                    state.places@.contains(q) <==> old(state).places@.contains(q) || exists|j: int|
                        0 <= j < k && (#[trigger] args@[j]).read() is Some && q
                            == self.analysis.place_indices.index_of(args@[j].read()->0),
            decreases args@.len() - k,
        {
            assert(self.analysis.operand_numbered(args@[k as int]));
            let ghost before = state.places@;
            if let Some(place) = args[k].place() {
                self.add_relevant(state, place);
                proof {
                    any = true;
                    assert(args@[k as int].read() is Some);
                }
            }
            proof {
                assert forall|q: usize| #[trigger]
                    state.places@.contains(q) <==> old(state).places@.contains(q) || exists|j: int|
                        0 <= j < k + 1 && (#[trigger] args@[j]).read() is Some && q
                            == self.analysis.place_indices.index_of(args@[j].read()->0) by {
                    assert(state.places@.contains(q) <==> before.contains(q) || (
                    args@[k as int].read() is Some && q == self.analysis.place_indices.index_of(
                        args@[k as int].read()->0,
                    )));
                }
            }
            k = k + 1;
        }
        proof {
            let reads = self.analysis.read_by(args@);
            if any {
                let j = choose|j: int| 0 <= j < k && (#[trigger] args@[j]).read() is Some;
                assert(reads.contains(self.analysis.place_indices.index_of(args@[j].read()->0)));
                assert(state.places@ =~= old(state).places@.union(reads));
            } else {
                assert(reads =~= Set::<usize>::empty());
            }
        }
    }

    /// Applies a terminator.
    pub fn visit_terminator(
        &self,
        state: &mut RelevanceDomain,
        terminator: &Terminator,
        location: Location,
    )
        requires
            self.analysis.wf(),
            self.analysis.covers(location),
            old(state).places.domain_size() == self.analysis.place_indices@.len(),
            self.analysis.terminator_numbered(*terminator),
        ensures
            final(state)@ == self.analysis.terminator_effect(old(state)@, *terminator, location),
            final(state).places.domain_size() == old(state).places.domain_size(),
    {
        let ghost more = self.analysis.terminator_reads(old(state)@, *terminator, location);
        state.statement_relevant = false;
        match terminator {
            Terminator::Call { args, destination } => {
                if self.visit_call(state, args, destination, location) {
                    self.add_args(state, args);
                }
            },
            Terminator::SwitchInt { discr } => {
                if state.path_relevant == Relevant::Yes {
                    if let Some(place) = discr.place() {
                        let (places, _) = self.analysis.places_and_pointers(place, location);
                        self.add_relevant_many(state, &places);
                        proof {
                            let target = self.analysis.place_indices.index_of(place@);
                            self.analysis.reached_recursively(location, target, target);
                            assert(more.contains(target));
                        }
                    }
                }
            },
            Terminator::Other => {},
        }
        state.path_relevant = if state.statement_relevant {
            Relevant::Yes
        } else {
            Relevant::No
        };
        assert(state.places@ =~= old(state).places@.union(more));
    }
}

impl RelevanceAnalysis {
    /// What is assumed of a point that has not been looked at.
    pub fn bottom_value(&self) -> (state: RelevanceDomain)
        ensures
            state@ == (DomainModel {
                places: Set::empty(),
                statement_relevant: false,
                path_relevant: Relevant::Unknown,
            }),
            state.places.domain_size() == self.place_indices@.len(),
    {
        RelevanceDomain {
            places: self.place_indices.empty_set(),
            statement_relevant: false,
            path_relevant: Relevant::Unknown,
        }
    }

    /// Nothing is known beforehand of the point that the walk starts from.
    pub fn initialize_start_block(&self, state: &mut RelevanceDomain)
        ensures
            *final(state) == *old(state),
    {
    }

    /// Turns what is known after a statement into what is known before it.
    pub fn apply_statement_effect(
        &self,
        state: &mut RelevanceDomain,
        statement: &Statement,
        location: Location,
    )
        requires
            self.wf(),
            self.covers(location),
            old(state).places.domain_size() == self.place_indices@.len(),
            self.statement_numbered(*statement),
        ensures
            final(state)@ == self.statement_effect(old(state)@, *statement, location),
            final(state).places.domain_size() == old(state).places.domain_size(),
    {
        TransferFunction { analysis: self }.visit_statement(state, statement, location);
    }

    /// Turns what is known after a terminator into what is known before it.
    pub fn apply_terminator_effect(
        &self,
        state: &mut RelevanceDomain,
        terminator: &Terminator,
        location: Location,
    )
        requires
            self.wf(),
            self.covers(location),
            old(state).places.domain_size() == self.place_indices@.len(),
            self.terminator_numbered(*terminator),
        ensures
            final(state)@ == self.terminator_effect(old(state)@, *terminator, location),
            final(state).places.domain_size() == old(state).places.domain_size(),
    {
        TransferFunction { analysis: self }.visit_terminator(state, terminator, location);
    }

    /// That a call returns changes nothing: the whole call was a terminator.
    pub fn apply_call_return_effect(&self, state: &mut RelevanceDomain, _return_place: &Place)
        ensures
            *final(state) == *old(state),
    {
    }

}

} // verus!
