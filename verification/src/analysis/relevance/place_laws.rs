//! What holds of parts of places, and of what a write to a place may change.

use super::places::RelevanceAnalysis;
use crate::mir::{Location, Mutability, PlaceModel};
use vstd::prelude::*;

verus! {

impl RelevanceAnalysis {
    /// Whether borrow `i` is a mutable one that is in force before `location`.
    pub open spec fn mutably_in_force(&self, location: Location, i: usize) -> bool {
        &&& i < self.borrow_set@.len()
        &&& self.borrow_set@[i as int].mutability == Mutability::Mut
        &&& self.borrow_ranges.blocks@[location.block as int]@[location.statement_index as int]@
            .contains(i)
    }

    /// Whether `local` is one that may hold borrow `i` before `location`.
    pub open spec fn may_hold(&self, location: Location, local: usize, i: usize) -> bool {
        let held = self.aliases.blocks@[location.block as int]@[location.statement_index as int]@;
        local < held.len() && held[local as int]@.contains(i)
    }

    /// The tables of a body fit together if each speaks of the numbered places, the
    /// borrows and the points and no others; what the borrows are and which of them are
    /// in force does not matter.
    pub proof fn numbered_tables_fit(&self)
        requires
            self.facts.shared_reference@.len() == self.place_indices@.len(),
            self.facts.conflicts@.len() == self.place_indices@.len(),
            forall|w: int|
                0 <= w < self.place_indices@.len() ==> (
                #[trigger] self.facts.shared_reference@[w])@.len()
                    == self.place_indices@[w].projection.len(),
            forall|w: int|
                0 <= w < self.place_indices@.len() ==> (#[trigger] self.facts.conflicts@[w])@.len()
                    == self.place_indices@.len(),
            forall|i: int|
                0 <= i < self.borrow_set@.len() ==> self.place_indices.has(
                    (#[trigger] self.borrow_set@[i]).assigned_place@,
                ) && self.place_indices.has(self.borrow_set@[i].borrowed_place@),
            self.borrow_ranges.blocks@.len() == self.aliases.blocks@.len(),
            forall|b: int|
                0 <= b < self.borrow_ranges.blocks@.len() ==> (
                #[trigger] self.borrow_ranges.blocks@[b])@.len() == self.aliases.blocks@[b]@.len(),
            forall|b: int, i: int|
                0 <= b < self.borrow_ranges.blocks@.len() && 0 <= i
                    < self.borrow_ranges.blocks@[b]@.len() ==> (
                #[trigger] self.borrow_ranges.blocks@[b]@[i]).domain_size()
                    == self.borrow_set@.len(),
            forall|b: int, i: int, a: int|
                0 <= b < self.aliases.blocks@.len() && 0 <= i < self.aliases.blocks@[b]@.len() && 0
                    <= a < self.aliases.blocks@[b]@[i]@.len() ==> (
                #[trigger] self.aliases.blocks@[b]@[i]@[a]).domain_size() == self.borrow_set@.len()
                    && self.place_indices.has(PlaceModel::whole(a as usize)),
        ensures
            self.wf(),
    {
        assert forall|l: Location| #[trigger] self.aliases.covers(l) implies self.aliases_fit(
            l,
        ) by {
            assert forall|a: int|
                0 <= a < self.aliases.value(l)@.len() implies self.alias_fits(
                #[trigger] self.aliases.value(l)@[a],
                a as usize,
            ) by {
                let held = self.aliases.blocks@[l.block as int]@[l.statement_index as int]@[a];
            }
        }
    }

    /// Parts are what the table of conflicts says, but for what is behind a shared
    /// reference: a place that conflicts with another is a part of it unless one of
    /// the steps that only the other has leads through a shared reference, and a
    /// place that does not conflict is none.
    pub proof fn parts_are_conflicts_without_shared_references(&self, part: usize, whole: usize)
        ensures
            ({
                let own = self.place_indices@[part as int].projection.len();
                let all = self.place_indices@[whole as int].projection.len();
                let conflict = self.facts.conflicts@[whole as int]@[part as int];
                let shared = self.facts.shared_reference@[whole as int]@;
                &&& !conflict ==> !self.is_part(part, whole)
                &&& own >= all && conflict ==> self.is_part(part, whole)
                &&& forall|k: int|
                    own <= k < all && #[trigger] shared[k] ==> !self.is_part(part, whole)
                &&& conflict && (forall|k: int| own <= k < all ==> !#[trigger] shared[k])
                    ==> self.is_part(part, whole)
            }),
    {
    }

    /// A write to a part of what a mutable borrow in force was first put into may
    /// change the borrowed place, and all that a write to that may change. The
    /// written place and what the borrow was first put into are pointers to it.
    pub proof fn borrow_is_followed_from_its_place(
        &self,
        location: Location,
        place: usize,
        i: usize,
    )
        requires
            self.mutably_in_force(location, i),
            self.is_part(
                place,
                self.place_indices.index_of(self.borrow_set@[i as int].assigned_place@),
            ),
        ensures
            ({
                let borrowed = self.place_indices.index_of(
                    self.borrow_set@[i as int].borrowed_place@,
                );
                let assigned = self.place_indices.index_of(
                    self.borrow_set@[i as int].assigned_place@,
                );
                &&& self.reached(location, place).contains(borrowed)
                &&& self.reached(location, borrowed).subset_of(self.reached(location, place))
                &&& self.pointers(location, place).contains(place)
                &&& self.pointers(location, place).contains(assigned)
                &&& self.pointers(location, borrowed).subset_of(self.pointers(location, place))
            }),
    {
        assert(self.leads(location, place, i));
        self.lemma_followed(location, place, i);
    }

    /// A write to a part of a local that may hold a mutable borrow in force, for
    /// instance to what the local points to, may change the borrowed place, and all
    /// that a write to that may change. The written place and what the borrow was
    /// first put into are pointers to it.
    pub proof fn borrow_is_followed_from_its_holders(
        &self,
        location: Location,
        place: usize,
        i: usize,
        local: usize,
    )
        requires
            self.mutably_in_force(location, i),
            self.may_hold(location, local, i),
            self.is_part(place, self.place_indices.index_of(PlaceModel::whole(local))),
        ensures
            ({
                let borrowed = self.place_indices.index_of(
                    self.borrow_set@[i as int].borrowed_place@,
                );
                let assigned = self.place_indices.index_of(
                    self.borrow_set@[i as int].assigned_place@,
                );
                &&& self.reached(location, place).contains(borrowed)
                &&& self.reached(location, borrowed).subset_of(self.reached(location, place))
                &&& self.pointers(location, place).contains(place)
                &&& self.pointers(location, place).contains(assigned)
                &&& self.pointers(location, borrowed).subset_of(self.pointers(location, place))
            }),
    {
        assert(self.aliases.value(location)@[local as int]@.contains(i));
        assert(self.in_alias(location, place, i));
        assert(self.leads(location, place, i));
        self.lemma_followed(location, place, i);
    }

    proof fn lemma_followed(&self, location: Location, place: usize, i: usize)
        requires
            self.leads(location, place, i),
        ensures
            self.reached(location, place).contains(self.borrowed(i)),
            self.reached(location, self.borrowed(i)).subset_of(self.reached(location, place)),
            self.pointers(location, place).contains(place),
            self.pointers(location, place).contains(self.assigned(i)),
            self.pointers(location, self.borrowed(i)).subset_of(self.pointers(location, place)),
    {
        self.reached_recursively(location, self.borrowed(i), self.borrowed(i));
        self.reached_recursively(location, place, self.borrowed(i));
        self.pointers_recursively(location, place, place);
        self.pointers_recursively(location, place, self.assigned(i));
        assert forall|q: usize| self.reached(location, self.borrowed(i)).contains(q) implies
            self.reached(location, place).contains(q) by {
            self.reached_recursively(location, place, q);
        }
        assert forall|q: usize| self.pointers(location, self.borrowed(i)).contains(q) implies
            self.pointers(location, place).contains(q) by {
            self.pointers_recursively(location, place, q);
        }
    }

    /// A write changes the written place itself. It changes nothing else, and
    /// through no pointer, if the place is no part of what holds a mutable borrow in
    /// force; shared borrows and those that are not in force do not count.
    pub proof fn write_without_a_borrow_changes_one_place(&self, location: Location, place: usize)
        requires
            forall|i: usize| #[trigger]
                self.mutably_in_force(location, i) ==> !self.is_part(
                    place,
                    self.place_indices.index_of(self.borrow_set@[i as int].assigned_place@),
                ),
            forall|i: usize, local: usize| #[trigger]
                self.mutably_in_force(location, i) && #[trigger] self.may_hold(location, local, i)
                    ==> !self.is_part(place, self.place_indices.index_of(PlaceModel::whole(local))),
        ensures
            self.reached(location, place) == Set::<usize>::empty().insert(place),
            self.pointers(location, place) == Set::<usize>::empty(),
    {
        assert forall|i: usize| !#[trigger] self.leads(location, place, i) by {
            if self.leads(location, place, i) {
                assert(self.mutably_in_force(location, i));
                assert(self.in_alias(location, place, i));
                let a = choose|a: int|
                    0 <= a < self.aliases.value(location)@.len() && (#[trigger] self.aliases.value(
                        location,
                    )@[a])@.contains(i) && self.is_part(
                        place,
                        self.place_indices.index_of(PlaceModel::whole(a as usize)),
                    );
                assert(self.aliases.value(location)@.len() <= usize::MAX) by {
                    let held = self.aliases.value(location);
                    assert(held.len() == held@.len());
                }
                assert(self.may_hold(location, a as usize, i));
            }
        }
        assert forall|q: usize| self.reached(location, place).contains(q) <==> q == place by {
            self.reached_recursively(location, place, q);
        }
        assert(self.reached(location, place) =~= Set::<usize>::empty().insert(place));
        assert forall|q: usize| !self.pointers(location, place).contains(q) by {
            self.pointers_recursively(location, place, q);
        }
        assert(self.pointers(location, place) =~= Set::<usize>::empty());
    }

    /// What a write changes, a write to what it changes does not go beyond: neither
    /// in the places nor in the pointers.
    pub proof fn what_is_reached_reaches_no_further(
        &self,
        location: Location,
        place: usize,
        on_the_way: usize,
    )
        requires
            self.reached(location, place).contains(on_the_way),
        ensures
            self.reached(location, place).contains(place),
            self.reached(location, on_the_way).subset_of(self.reached(location, place)),
            self.pointers(location, on_the_way).subset_of(self.pointers(location, place)),
    {
        self.reached_recursively(location, place, place);
        let steps = choose|steps: nat| self.reaches_in(location, place, on_the_way, steps);
        self.lemma_reached_within(location, place, on_the_way, steps);
    }

    proof fn lemma_reached_within(
        &self,
        location: Location,
        place: usize,
        on_the_way: usize,
        steps: nat,
    )
        requires
            self.reaches_in(location, place, on_the_way, steps),
        ensures
            self.reached(location, on_the_way).subset_of(self.reached(location, place)),
            self.pointers(location, on_the_way).subset_of(self.pointers(location, place)),
        decreases steps,
    {
        if steps > 0 {
            let i = choose|i: usize| #[trigger]
                self.leads(location, place, i) && self.reaches_in(
                    location,
                    self.borrowed(i),
                    on_the_way,
                    (steps - 1) as nat,
                );
            self.lemma_reached_within(location, self.borrowed(i), on_the_way, (steps - 1) as nat);
            self.lemma_followed(location, place, i);
        }
    }

    /// What a write changes beyond the written place was borrowed by a mutable borrow
    /// in force, one that is held in a place that the write changes; and every
    /// pointer on the way is such a place or what such a borrow was first put into.
    pub proof fn write_changes_only_what_is_borrowed(
        &self,
        location: Location,
        place: usize,
        q: usize,
    )
        ensures
            self.reached(location, place).contains(q) ==> q == place || exists|r: usize, i: usize|
                #[trigger]
                self.reached(location, place).contains(r) && #[trigger] self.mutably_in_force(
                    location,
                    i,
                ) && q
                    == self.place_indices.index_of(self.borrow_set@[i as int].borrowed_place@)
                    && self.is_held_in(location, r, i),
            self.pointers(location, place).contains(q) ==> exists|r: usize, i: usize|
                #[trigger]
                self.reached(location, place).contains(r) && #[trigger] self.mutably_in_force(
                    location,
                    i,
                ) && (q
                    == r || q == self.place_indices.index_of(
                    self.borrow_set@[i as int].assigned_place@,
                )) && self.is_held_in(location, r, i),
    {
        if self.reached(location, place).contains(q) && q != place {
            let steps = choose|steps: nat| self.reaches_in(location, place, q, steps);
            self.lemma_last_borrow(location, place, q, steps);
        }
        if self.pointers(location, place).contains(q) {
            let (r, i) = choose|r: usize, i: usize| #[trigger]
                self.reaches(location, place, r) && #[trigger] self.leads(location, r, i) && (q
                    == r || q == self.assigned(i));
            self.lemma_held(location, r, i);
            assert(self.reached(location, place).contains(r));
        }
    }

    /// Whether `place` is a part of what borrow `i` was first put into or of a local
    /// that may hold it.
    pub open spec fn is_held_in(&self, location: Location, place: usize, i: usize) -> bool {
        ||| self.is_part(
            place,
            self.place_indices.index_of(self.borrow_set@[i as int].assigned_place@),
        )
        ||| exists|local: usize| #[trigger]
            self.may_hold(location, local, i) && self.is_part(
                place,
                self.place_indices.index_of(PlaceModel::whole(local)),
            )
    }

    proof fn lemma_held(&self, location: Location, place: usize, i: usize)
        requires
            self.leads(location, place, i),
        ensures
            self.mutably_in_force(location, i),
            self.is_held_in(location, place, i),
    {
        if !self.is_part(place, self.assigned(i)) {
            let a = choose|a: int|
                0 <= a < self.aliases.value(location)@.len() && (#[trigger] self.aliases.value(
                    location,
                )@[a])@.contains(i) && self.is_part(
                    place,
                    self.place_indices.index_of(PlaceModel::whole(a as usize)),
                );
            assert(self.aliases.value(location).len() == self.aliases.value(location)@.len());
            assert(self.may_hold(location, a as usize, i));
        }
    }

    proof fn lemma_last_borrow(&self, location: Location, place: usize, q: usize, steps: nat)
        requires
            self.reaches_in(location, place, q, steps),
            steps > 0,
        ensures
            exists|r: usize, i: usize|
                #[trigger]
                self.reached(location, place).contains(r) && #[trigger] self.mutably_in_force(
                    location,
                    i,
                ) && q
                    == self.place_indices.index_of(self.borrow_set@[i as int].borrowed_place@)
                    && self.is_held_in(location, r, i),
        decreases steps,
    {
        let i = choose|i: usize| #[trigger]
            self.leads(location, place, i) && self.reaches_in(
                location,
                self.borrowed(i),
                q,
                (steps - 1) as nat,
            );
        self.lemma_held(location, place, i);
        if steps == 1 {
            self.reached_recursively(location, place, place);
            assert(self.reached(location, place).contains(place));
        } else {
            self.lemma_last_borrow(location, self.borrowed(i), q, (steps - 1) as nat);
            let (r, j) = choose|r: usize, j: usize|
                #[trigger]
                self.reached(location, self.borrowed(i)).contains(r)
                    && #[trigger] self.mutably_in_force(
                    location,
                    j,
                ) && q == self.place_indices.index_of(self.borrow_set@[j as int].borrowed_place@)
                    && self.is_held_in(location, r, j);
            self.lemma_followed(location, place, i);
            assert(self.reached(location, place).contains(r));
        }
    }
}

} // verus!
