//! The tables of a body, which places may be written through a place, and which
//! places hold pointers that lead there.

use super::domain::SliceSet;
use crate::index_set::IndexSet;
use crate::mir::{Location, Mutability, Place, PlaceIndices, PlaceModel, PlaceSet, PointTable};
use vstd::prelude::*;

verus! {

/// A borrow: the place that it was taken of, and the place that the pointer was
/// first put into.
#[derive(Debug)]
pub struct BorrowData {
    pub mutability: Mutability,
    pub assigned_place: Place,
    pub borrowed_place: Place,
}

/// What the types of a body say of its numbered places.
#[derive(Debug)]
pub struct PlaceFacts {
    /// For each place, and for each number of steps that is smaller than the number
    /// of its steps, whether that many steps lead to a shared reference.
    pub shared_reference: Vec<Vec<bool>>,
    /// For each place `w`, and for each place `p`, whether a deep access to `p`
    /// conflicts with a mutable borrow of `w`. Nothing is read here of a `p` and a
    /// `w` where the remaining steps of `w` lead through a shared reference.
    pub conflicts: Vec<Vec<bool>>,
}

/// The backward analysis of one body.
#[derive(Debug)]
pub struct RelevanceAnalysis {
    pub slice_set: SliceSet,
    pub facts: PlaceFacts,
    pub borrow_set: Vec<BorrowData>,
    /// The borrows that are in force before each point.
    pub borrow_ranges: PointTable<IndexSet>,
    pub place_indices: PlaceIndices,
    /// For each local, the borrows that it may hold before each point.
    pub aliases: PointTable<Vec<IndexSet>>,
}

impl RelevanceAnalysis {
    /// The tables speak of the same places, borrows and points.
    pub open spec fn wf(&self) -> bool {
        &&& self.facts_fit()
        &&& self.borrows_fit()
        &&& self.points_fit()
        &&& forall|l: Location| #[trigger]
            self.borrow_ranges.covers(l) ==> self.borrow_ranges.value(l).domain_size()
                == self.borrow_set@.len()
        &&& forall|l: Location| #[trigger] self.aliases.covers(l) ==> self.aliases_fit(l)
    }

    /// The two tables of borrows have the same blocks, with the same points.
    pub open spec fn points_fit(&self) -> bool {
        &&& self.borrow_ranges.blocks@.len() == self.aliases.blocks@.len()
        &&& forall|b: int|
            0 <= b < self.borrow_ranges.blocks@.len() ==> (
            #[trigger] self.borrow_ranges.blocks@[b])@.len() == self.aliases.blocks@[b]@.len()
    }

    /// The facts cover every place and every pair of places.
    pub open spec fn facts_fit(&self) -> bool {
        let n = self.place_indices@.len();
        &&& self.facts.shared_reference@.len() == n
        &&& self.facts.conflicts@.len() == n
        &&& forall|w: int|
            0 <= w < n ==> (#[trigger] self.facts.shared_reference@[w])@.len()
                == self.place_indices@[w].projection.len()
        &&& forall|w: int| 0 <= w < n ==> (#[trigger] self.facts.conflicts@[w])@.len() == n
    }

    /// The places of every borrow are numbered.
    pub open spec fn borrows_fit(&self) -> bool {
        forall|i: int|
            0 <= i < self.borrow_set@.len() ==> self.place_indices.has(
                (#[trigger] self.borrow_set@[i]).assigned_place@,
            ) && self.place_indices.has(self.borrow_set@[i].borrowed_place@)
    }

    /// At `location`, the locals are numbered places and hold numbered borrows.
    pub open spec fn aliases_fit(&self, location: Location) -> bool {
        forall|a: int|
            0 <= a < self.aliases.value(location)@.len() ==> self.alias_fits(
                #[trigger] self.aliases.value(location)@[a],
                a as usize,
            )
    }

    /// The local is a numbered place, and the set is one of numbered borrows.
    pub open spec fn alias_fits(&self, borrows: IndexSet, local: usize) -> bool {
        &&& borrows.domain_size() == self.borrow_set@.len()
        &&& self.place_indices.has(PlaceModel::whole(local))
    }

    /// Whether the analysis has facts for `location`.
    pub open spec fn covers(&self, location: Location) -> bool {
        self.borrow_ranges.covers(location)
    }

    /// Whether the steps of `whole` that `part` does not have lead through a
    /// shared reference.
    pub open spec fn behind_shared_reference(&self, part: usize, whole: usize) -> bool {
        exists|k: int|
            self.place_indices@[part as int].projection.len() <= k
                < self.place_indices@[whole as int].projection.len()
                && #[trigger] self.facts.shared_reference@[whole as int]@[k]
    }

    /// Whether writing through `whole` may be seen at `part`.
    pub open spec fn is_part(&self, part: usize, whole: usize) -> bool {
        &&& !self.behind_shared_reference(part, whole)
        &&& self.facts.conflicts@[whole as int]@[part as int]
    }

    /// The number of the place that borrow `i` was first put into.
    pub open spec fn assigned(&self, i: usize) -> usize {
        self.place_indices.index_of(self.borrow_set@[i as int].assigned_place@)
    }

    /// The number of the place that borrow `i` was taken of.
    pub open spec fn borrowed(&self, i: usize) -> usize {
        self.place_indices.index_of(self.borrow_set@[i as int].borrowed_place@)
    }

    /// Whether `place` is a part of a local that may hold borrow `i`.
    pub open spec fn in_alias(&self, location: Location, place: usize, i: usize) -> bool {
        exists|a: int|
            0 <= a < self.aliases.value(location)@.len() && (#[trigger] self.aliases.value(
                location,
            )@[a])@.contains(i) && self.is_part(
                place,
                self.place_indices.index_of(PlaceModel::whole(a as usize)),
            )
    }

    /// Whether `place` is a part of what holds borrow `i`, a mutable borrow in
    /// force before `location`.
    pub open spec fn leads(&self, location: Location, place: usize, i: usize) -> bool {
        &&& i < self.borrow_set@.len()
        &&& self.borrow_ranges.value(location)@.contains(i)
        &&& self.borrow_set@[i as int].mutability == Mutability::Mut
        &&& self.is_part(place, self.assigned(i)) || self.in_alias(location, place, i)
    }

    /// Whether `to` is reached from `from` by following borrows `steps` times.
    pub open spec fn reaches_in(
        &self,
        location: Location,
        from: usize,
        to: usize,
        steps: nat,
    ) -> bool
        decreases steps,
    {
        if steps == 0 {
            from == to
        } else {
            exists|i: usize| #[trigger]
                self.leads(location, from, i) && self.reaches_in(
                    location,
                    self.borrowed(i),
                    to,
                    (steps - 1) as nat,
                )
        }
    }

    /// Whether `to` is reached from `from` by following borrows.
    pub open spec fn reaches(&self, location: Location, from: usize, to: usize) -> bool {
        exists|steps: nat| self.reaches_in(location, from, to, steps)
    }

    /// The places that writing to `place` may change: it, and all that is reached
    /// from it by following borrows.
    pub open spec fn reached(&self, location: Location, place: usize) -> Set<usize> {
        Set::new(|q: usize| self.reaches(location, place, q))
    }

    /// Whether `q` is a pointer that is followed on the way from `place`: a place
    /// on the way that a borrow leads on from, or what that borrow was first put
    /// into.
    pub open spec fn is_pointer(&self, location: Location, place: usize, q: usize) -> bool {
        exists|r: usize, i: usize| #[trigger]
            self.reaches(location, place, r) && #[trigger] self.leads(location, r, i) && (q == r
                || q == self.assigned(i))
    }

    /// The pointers that are followed on the way from `place`.
    pub open spec fn pointers(&self, location: Location, place: usize) -> Set<usize> {
        Set::new(|q: usize| self.is_pointer(location, place, q))
    }

    /// One more borrow followed from a place that is reached.
    proof fn lemma_reaches_further(&self, location: Location, from: usize, to: usize, i: usize)
        requires
            self.reaches(location, from, to),
            self.leads(location, to, i),
        ensures
            self.reaches(location, from, self.borrowed(i)),
    {
        let steps = choose|steps: nat| self.reaches_in(location, from, to, steps);
        self.lemma_reaches_in_further(location, from, to, i, steps);
        assert(self.reaches_in(location, from, self.borrowed(i), steps + 1));
    }

    proof fn lemma_reaches_in_further(
        &self,
        location: Location,
        from: usize,
        to: usize,
        i: usize,
        steps: nat,
    )
        requires
            self.reaches_in(location, from, to, steps),
            self.leads(location, to, i),
        ensures
            self.reaches_in(location, from, self.borrowed(i), steps + 1),
        decreases steps,
    {
        if steps == 0 {
            assert(self.reaches_in(location, self.borrowed(i), self.borrowed(i), 0));
            assert(self.leads(location, from, i));
        } else {
            let j = choose|j: usize| #[trigger]
                self.leads(location, from, j) && self.reaches_in(
                    location,
                    self.borrowed(j),
                    to,
                    (steps - 1) as nat,
                );
            self.lemma_reaches_in_further(location, self.borrowed(j), to, i, (steps - 1) as nat);
            assert(self.leads(location, from, j));
        }
    }

    /// What is closed under following borrows holds all that is reached.
    proof fn lemma_closed_holds_reached(
        &self,
        location: Location,
        closed_set: Set<usize>,
        from: usize,
        to: usize,
        steps: nat,
    )
        requires
            closed_set.contains(from),
            self.reaches_in(location, from, to, steps),
            forall|r: usize, i: usize|
                closed_set.contains(r) && #[trigger] self.leads(location, r, i)
                    ==> closed_set.contains(self.borrowed(i)),
        ensures
            closed_set.contains(to),
        decreases steps,
    {
        if steps > 0 {
            let j = choose|j: usize| #[trigger]
                self.leads(location, from, j) && self.reaches_in(
                    location,
                    self.borrowed(j),
                    to,
                    (steps - 1) as nat,
                );
            self.lemma_closed_holds_reached(
                location,
                closed_set,
                self.borrowed(j),
                to,
                (steps - 1) as nat,
            );
        }
    }

    /// What writing to a place may change is the place and, for each borrow that
    /// leads on from it, what writing to the borrowed place may change.
    pub proof fn reached_recursively(&self, location: Location, place: usize, q: usize)
        ensures
            self.reached(location, place).contains(q) <==> q == place || exists|i: usize| #[trigger]
                self.leads(location, place, i) && self.reached(
                    location,
                    self.borrowed(i),
                ).contains(q),
    {
        if self.reaches(location, place, q) {
            let steps = choose|steps: nat| self.reaches_in(location, place, q, steps);
            if steps > 0 {
                let i = choose|i: usize| #[trigger]
                    self.leads(location, place, i) && self.reaches_in(
                        location,
                        self.borrowed(i),
                        q,
                        (steps - 1) as nat,
                    );
                assert(self.reaches(location, self.borrowed(i), q));
                assert(self.leads(location, place, i));
            }
        }
        if q == place {
            assert(self.reaches_in(location, place, q, 0));
        }
        if exists|i: usize| #[trigger]
            self.leads(location, place, i) && self.reached(location, self.borrowed(i)).contains(q) {
            let i = choose|i: usize| #[trigger]
                self.leads(location, place, i) && self.reached(
                    location,
                    self.borrowed(i),
                ).contains(q);
            let steps = choose|steps: nat|
                self.reaches_in(location, self.borrowed(i), q, steps);
            assert(self.reaches_in(location, place, q, steps + 1)) by {
                assert(self.leads(location, place, i));
            }
        }
    }

    /// The pointers followed from a place are, for each borrow that leads on from
    /// it, the place, what the borrow was first put into, and the pointers followed
    /// from the borrowed place.
    pub proof fn pointers_recursively(&self, location: Location, place: usize, q: usize)
        ensures
            self.pointers(location, place).contains(q) <==> exists|i: usize| #[trigger]
                self.leads(location, place, i) && (q == place || q == self.assigned(i)
                    || self.pointers(location, self.borrowed(i)).contains(q)),
    {
        assert(self.reaches_in(location, place, place, 0));
        assert(self.reaches(location, place, place));
        if self.is_pointer(location, place, q) {
            let (r, i) = choose|r: usize, i: usize| #[trigger]
                self.reaches(location, place, r) && #[trigger] self.leads(location, r, i) && (q
                    == r || q == self.assigned(i));
            self.reached_recursively(location, place, r);
            if r != place {
                let j = choose|j: usize| #[trigger]
                    self.leads(location, place, j) && self.reached(
                        location,
                        self.borrowed(j),
                    ).contains(r);
                assert(self.reaches(location, self.borrowed(j), r));
                assert(self.is_pointer(location, self.borrowed(j), q));
                assert(self.leads(location, place, j));
            } else {
                assert(self.leads(location, place, i));
            }
        }
        if exists|i: usize| #[trigger]
            self.leads(location, place, i) && (q == place || q == self.assigned(i)
                || self.pointers(location, self.borrowed(i)).contains(q)) {
            let i = choose|i: usize| #[trigger]
                self.leads(location, place, i) && (q == place || q == self.assigned(i)
                    || self.pointers(location, self.borrowed(i)).contains(q));
            if !(q == place || q == self.assigned(i)) {
                let (r, j) = choose|r: usize, j: usize| #[trigger]
                    self.reaches(location, self.borrowed(i), r) && #[trigger] self.leads(
                        location,
                        r,
                        j,
                    ) && (q == r || q == self.assigned(j));
                self.reached_recursively(location, place, r);
                assert(self.reached(location, self.borrowed(i)).contains(r));
                assert(self.reached(location, place).contains(r));
            }
        }
    }
}

impl RelevanceAnalysis {
    /// An analysis of the body that the tables describe, for a slice from
    /// `slice_set`.
    pub fn new(
        slice_set: SliceSet,
        facts: PlaceFacts,
        borrow_set: Vec<BorrowData>,
        borrow_ranges: PointTable<IndexSet>,
        place_indices: PlaceIndices,
        aliases: PointTable<Vec<IndexSet>>,
    ) -> (analysis: RelevanceAnalysis)
        ensures
            analysis.slice_set == slice_set,
            analysis.facts == facts,
            analysis.borrow_set == borrow_set,
            analysis.borrow_ranges == borrow_ranges,
            analysis.place_indices == place_indices,
            analysis.aliases == aliases,
    {
        RelevanceAnalysis {
            slice_set,
            facts,
            borrow_set,
            borrow_ranges,
            place_indices,
            aliases,
        }
    }

    /// Whether writing through a numbered place may be seen at another.
    pub fn place_index_is_part(&self, part_place: usize, whole_place: usize) -> (holds: bool)
        requires
            self.facts_fit(),
            part_place < self.place_indices@.len(),
            whole_place < self.place_indices@.len(),
        ensures
            holds == self.is_part(part_place, whole_place),
    {
        let part_len = self.place_indices.lookup(part_place).projection.len();
        let whole_len = self.place_indices.lookup(whole_place).projection.len();
        let shared_reference = &self.facts.shared_reference[whole_place];
        let mut k: usize = part_len;
        while k < whole_len
            invariant
                part_len <= k,
                k <= whole_len || k == part_len,
                shared_reference@.len() == whole_len,
                part_len == self.place_indices@[part_place as int].projection.len(),
                whole_len == self.place_indices@[whole_place as int].projection.len(),
                shared_reference@ == self.facts.shared_reference@[whole_place as int]@,
                forall|j: int| part_len <= j < k ==> !#[trigger] shared_reference@[j],
            decreases whole_len - k,
        {
            if shared_reference[k] {
                assert(self.behind_shared_reference(part_place, whole_place));
                return false;
            }
            k = k + 1;
        }
        assert(!self.behind_shared_reference(part_place, whole_place));
        self.facts.conflicts[whole_place][part_place]
    }

    /// Whether writing through a place may be seen at another.
    pub fn place_is_part(&self, part_place: &Place, whole_place: &Place) -> (holds: bool)
        requires
            self.facts_fit(),
            self.place_indices.has(part_place@),
            self.place_indices.has(whole_place@),
        ensures
            holds == self.is_part(
                self.place_indices.index_of(part_place@),
                self.place_indices.index_of(whole_place@),
            ),
    {
        self.place_index_is_part(
            self.place_indices.index(part_place),
            self.place_indices.index(whole_place),
        )
    }

    /// Whether a numbered place is a part of a local that may hold borrow `i`.
    fn part_of_alias(&self, location: Location, place: usize, i: usize) -> (holds: bool)
        requires
            self.wf(),
            self.covers(location),
            place < self.place_indices@.len(),
            i < self.borrow_set@.len(),
        ensures
            holds == self.in_alias(location, place, i),
    {
        assert(self.aliases.covers(location));
        let aliases = self.aliases.at(location);
        let mut a: usize = 0;
        while a < aliases.len()
            invariant
                a <= aliases@.len(),
                self.wf(),
                self.covers(location),
                self.aliases.covers(location),
                place < self.place_indices@.len(),
                i < self.borrow_set@.len(),
                *aliases == self.aliases.value(location),
                forall|b: int|
                    0 <= b < a ==> !((#[trigger] aliases@[b])@.contains(i) && self.is_part(
                        place,
                        self.place_indices.index_of(PlaceModel::whole(b as usize)),
                    )),
            decreases aliases@.len() - a,
        {
            assert(self.aliases_fit(location));
            assert(self.alias_fits(aliases@[a as int], a));
            if aliases[a].contains(i) {
                let alias = self.place_indices.index(&Place::whole(a));
                if self.place_index_is_part(place, alias) {
                    assert(self.aliases.value(location)@[a as int]@.contains(i));
                    return true;
                }
            }
            a = a + 1;
        }
        false
    }

    /// Whether a numbered place is a part of what holds borrow `i`, a mutable
    /// borrow in force before `location`.
    fn borrow_leads(&self, location: Location, place: usize, i: usize) -> (holds: bool)
        requires
            self.wf(),
            self.covers(location),
            place < self.place_indices@.len(),
            i < self.borrow_set@.len(),
        ensures
            holds == self.leads(location, place, i),
    {
        let borrow = &self.borrow_set[i];
        if !self.borrow_ranges.at(location).contains(i) {
            return false;
        }
        if borrow.mutability != Mutability::Mut {
            return false;
        }
        let assigned = self.place_indices.index(&borrow.assigned_place);
        self.place_index_is_part(place, assigned) || self.part_of_alias(location, place, i)
    }

    /// The places that writing to `place` before `location` may change, and the
    /// pointers that are followed to reach them.
    pub fn places_and_pointers(&self, place: &Place, location: Location) -> (found: (
        PlaceSet,
        PlaceSet,
    ))
        requires
            self.wf(),
            self.covers(location),
            self.place_indices.has(place@),
        ensures
            found.0@ == self.reached(location, self.place_indices.index_of(place@)),
            found.1@ == self.pointers(location, self.place_indices.index_of(place@)),
            found.0.domain_size() == self.place_indices@.len(),
            found.1.domain_size() == self.place_indices@.len(),
    {
        let mut places = self.place_indices.empty_set();
        let mut pointers = self.place_indices.empty_set();
        let start = self.place_indices.index(place);
        let mut found: Vec<usize> = Vec::new();
        places.insert(start);
        found.push(start);
        let mut next: usize = 0;
        proof {
            assert(self.reaches_in(location, start, start, 0));
            assert(found@ =~= seq![start]);
            assert(places@ =~= Set::<usize>::empty().insert(start));
            assert forall|q: usize| #[trigger] places@.contains(q) <==> found@.contains(q) by {
                assert(found@[0] == start);
            }
        }
        while next < found.len()
            invariant
                next <= found@.len(),
                self.wf(),
                self.covers(location),
                places.domain_size() == self.place_indices@.len(),
                pointers.domain_size() == self.place_indices@.len(),
                found@.no_duplicates(),
                found@.len() > 0,
                found@[0] == start,
                forall|q: usize| #[trigger] places@.contains(q) <==> found@.contains(q),
                forall|k: int|
                    0 <= k < found@.len() ==> #[trigger] found@[k] < self.place_indices@.len()
                        && self.reaches(location, start, found@[k]),
                forall|k: int, i: usize|
                    0 <= k < next && #[trigger] self.leads(location, #[trigger] found@[k], i)
                        ==> found@.contains(self.borrowed(i)),
                forall|q: usize| #[trigger]
                    pointers@.contains(q) <==> exists|k: int, i: usize|
                        0 <= k < next && #[trigger] self.leads(location, #[trigger] found@[k], i)
                            && (q == found@[k] || q == self.assigned(i)),
            decreases self.place_indices@.len() - next,
        {
            let ghost before = found@;
            let ghost pointers_before = pointers@;
            let here = found[next];
            let mut i: usize = 0;
            while i < self.borrow_set.len()
                invariant
                    i <= self.borrow_set@.len(),
                    next < before.len(),
                    here == before[next as int],
                    here < self.place_indices@.len(),
                    self.wf(),
                    self.covers(location),
                    self.reaches(location, start, here),
                    places.domain_size() == self.place_indices@.len(),
                    pointers.domain_size() == self.place_indices@.len(),
                    found@.no_duplicates(),
                    before.len() <= found@.len(),
                    forall|k: int| 0 <= k < before.len() ==> found@[k] == before[k],
                    forall|q: usize| #[trigger] places@.contains(q) <==> found@.contains(q),
                    forall|k: int|
                        0 <= k < found@.len() ==> #[trigger] found@[k] < self.place_indices@.len()
                            && self.reaches(location, start, found@[k]),
                    forall|j: usize|
                        j < i && #[trigger] self.leads(location, here, j) ==> found@.contains(
                            self.borrowed(j),
                        ),
                    forall|q: usize| #[trigger]
                        pointers@.contains(q) <==> pointers_before.contains(q) || exists|j: usize|
                            j < i && #[trigger] self.leads(location, here, j) && (q == here || q
                                == self.assigned(j)),
                decreases self.borrow_set@.len() - i,
            {
                let ghost found_then = found@;
                let ghost pointers_then = pointers@;
                if self.borrow_leads(location, here, i) {
                    let borrow = &self.borrow_set[i];
                    let assigned = self.place_indices.index(&borrow.assigned_place);
                    let borrowed = self.place_indices.index(&borrow.borrowed_place);
                    pointers.insert(here);
                    pointers.insert(assigned);
                    proof {
                        self.lemma_reaches_further(location, start, here, i);
                    }
                    if places.insert(borrowed) {
                        found.push(borrowed);
                        proof {
                            assert(!found_then.contains(borrowed));
                            assert forall|q: usize| #[trigger]
                                places@.contains(q) <==> found@.contains(q) by {
                                if found_then.contains(q) {
                                    let k = choose|k: int|
                                        0 <= k < found_then.len() && found_then[k] == q;
                                    assert(found@[k] == q);
                                }
                                assert(found@[found_then.len() as int] == borrowed);
                            }
                        }
                    }
                    assert(found@.contains(borrowed));
                }
                proof {
                    assert forall|j: usize|
                        j < i + 1 && #[trigger] self.leads(
                            location,
                            here,
                            j,
                        ) implies found@.contains(self.borrowed(j)) by {
                        if j < i {
                            let k = choose|k: int|
                                0 <= k < found_then.len() && found_then[k] == self.borrowed(j);
                            assert(found@[k] == self.borrowed(j));
                        }
                    }
                    assert forall|q: usize| #[trigger]
                        pointers@.contains(q) <==> pointers_before.contains(q) || exists|j: usize|
                            j < i + 1 && #[trigger] self.leads(location, here, j) && (q == here
                                || q == self.assigned(j)) by {
                        if self.leads(location, here, i) && (q == here || q == self.assigned(i)) {
                            assert(pointers@.contains(q));
                        }
                        assert(pointers_then.contains(q) ==> pointers@.contains(q));
                    }
                }
                i = i + 1;
            }
            proof {
                assert forall|k: int, j: usize|
                    0 <= k < next + 1 && #[trigger] self.leads(
                        location,
                        #[trigger] found@[k],
                        j,
                    ) implies found@.contains(self.borrowed(j)) by {
                    if k < next {
                        assert(self.leads(location, before[k], j));
                        let m = choose|m: int|
                            0 <= m < before.len() && before[m] == self.borrowed(j);
                        assert(found@[m] == self.borrowed(j));
                    }
                }
                assert forall|q: usize| #[trigger]
                    pointers@.contains(q) <==> exists|k: int, j: usize|
                        0 <= k < next + 1 && #[trigger] self.leads(
                            location,
                            #[trigger] found@[k],
                            j,
                        ) && (q == found@[k] || q == self.assigned(j)) by {
                    if pointers@.contains(q) {
                        if pointers_before.contains(q) {
                            let (k, j) = choose|k: int, j: usize|
                                0 <= k < next && #[trigger] self.leads(
                                    location,
                                    #[trigger] before[k],
                                    j,
                                ) && (q == before[k] || q == self.assigned(j));
                            assert(self.leads(location, found@[k], j));
                        } else {
                            let j = choose|j: usize|
                                j < i && #[trigger] self.leads(location, here, j) && (q == here
                                    || q == self.assigned(j));
                            assert(self.leads(location, found@[next as int], j));
                        }
                    }
                    if exists|k: int, j: usize|
                        0 <= k < next + 1 && #[trigger] self.leads(
                            location,
                            #[trigger] found@[k],
                            j,
                        ) && (q == found@[k] || q == self.assigned(j)) {
                        let (k, j) = choose|k: int, j: usize|
                            0 <= k < next + 1 && #[trigger] self.leads(
                                location,
                                #[trigger] found@[k],
                                j,
                            ) && (q == found@[k] || q == self.assigned(j));
                        if k < next {
                            assert(self.leads(location, before[k], j));
                            assert(pointers_before.contains(q));
                        } else {
                            assert(self.leads(location, here, j));
                        }
                    }
                }
                lemma_distinct_below(before, self.place_indices@.len());
            }
            next = next + 1;
        }
        proof {
            self.lemma_search_complete(location, start, places@, pointers@, found@);
        }
        (places, pointers)
    }

    /// A search that has followed every borrow from every place that it found has
    /// found what is reached, and the pointers on the way.
    proof fn lemma_search_complete(
        &self,
        location: Location,
        start: usize,
        places: Set<usize>,
        pointers: Set<usize>,
        found: Seq<usize>,
    )
        requires
            found.len() > 0,
            found[0] == start,
            forall|q: usize| #[trigger] places.contains(q) <==> found.contains(q),
            forall|k: int|
                0 <= k < found.len() ==> self.reaches(location, start, #[trigger] found[k]),
            forall|k: int, i: usize|
                0 <= k < found.len() && #[trigger] self.leads(location, #[trigger] found[k], i)
                    ==> found.contains(self.borrowed(i)),
            forall|q: usize| #[trigger]
                pointers.contains(q) <==> exists|k: int, i: usize|
                    0 <= k < found.len() && #[trigger] self.leads(location, #[trigger] found[k], i)
                        && (q == found[k] || q == self.assigned(i)),
        ensures
            places == self.reached(location, start),
            pointers == self.pointers(location, start),
    {
        assert(found.contains(start));
        assert forall|r: usize, i: usize|
            places.contains(r) && #[trigger] self.leads(location, r, i) implies places.contains(
            self.borrowed(i),
        ) by {
            let k = choose|k: int| 0 <= k < found.len() && found[k] == r;
            assert(self.leads(location, found[k], i));
        }
        assert forall|q: usize| self.reaches(location, start, q) implies places.contains(q) by {
            let steps = choose|steps: nat| self.reaches_in(location, start, q, steps);
            self.lemma_closed_holds_reached(location, places, start, q, steps);
        }
        assert forall|q: usize| places.contains(q) implies self.reaches(location, start, q) by {
            let k = choose|k: int| 0 <= k < found.len() && found[k] == q;
            assert(self.reaches(location, start, found[k]));
        }
        assert(places =~= self.reached(location, start));
        assert forall|q: usize| pointers.contains(q) <==> self.is_pointer(location, start, q) by {
            if pointers.contains(q) {
                let (k, i) = choose|k: int, i: usize|
                    0 <= k < found.len() && #[trigger] self.leads(location, #[trigger] found[k], i)
                        && (q == found[k] || q == self.assigned(i));
                assert(self.reaches(location, start, found[k]));
                assert(self.leads(location, found[k], i));
            }
            if self.is_pointer(location, start, q) {
                let (r, i) = choose|r: usize, i: usize| #[trigger]
                    self.reaches(location, start, r) && #[trigger] self.leads(location, r, i) && (q
                        == r || q == self.assigned(i));
                assert(places.contains(r));
                let k = choose|k: int| 0 <= k < found.len() && found[k] == r;
                assert(self.leads(location, found[k], i));
            }
        }
        assert(pointers =~= self.pointers(location, start));
    }
}

/// Distinct numbers below a bound are no more than the bound.
proof fn lemma_distinct_below(numbers: Seq<usize>, bound: nat)
    requires
        numbers.no_duplicates(),
        forall|k: int| 0 <= k < numbers.len() ==> #[trigger] numbers[k] < bound,
    ensures
        numbers.len() <= bound,
{
    let wide = numbers.map_values(|x: usize| x as int);
    assert(wide.no_duplicates());
    wide.unique_seq_to_set();
    vstd::set_lib::lemma_int_range(0, bound as int);
    assert(wide.to_set().subset_of(vstd::set_lib::set_int_range(0, bound as int)));
    vstd::set_lib::lemma_len_subset(
        wide.to_set(),
        vstd::set_lib::set_int_range(0, bound as int),
    );
}

} // verus!
