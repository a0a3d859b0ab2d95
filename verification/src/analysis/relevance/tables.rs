//! Whether the tables of a body fit together.

use super::places::RelevanceAnalysis;
use crate::index_set::IndexSet;
use crate::mir::{Location, Operand, Place, Statement, Terminator};
use vstd::prelude::*;

verus! {

impl RelevanceAnalysis {
    /// Whether the facts cover every place and every pair of places.
    fn check_facts(&self) -> (holds: bool)
        ensures
            holds == self.facts_fit(),
    {
        let n = self.place_indices.len();
        if self.facts.shared_reference.len() != n || self.facts.conflicts.len() != n {
            return false;
        }
        let mut w: usize = 0;
        while w < n
            invariant
                w <= n,
                n == self.place_indices@.len(),
                self.facts.shared_reference@.len() == n,
                self.facts.conflicts@.len() == n,
                forall|v: int|
                    0 <= v < w ==> (#[trigger] self.facts.shared_reference@[v])@.len()
                        == self.place_indices@[v].projection.len(),
                forall|v: int| 0 <= v < w ==> (#[trigger] self.facts.conflicts@[v])@.len() == n,
            decreases n - w,
        {
            if self.facts.shared_reference[w].len() != self.place_indices.lookup(w).projection.len()
                || self.facts.conflicts[w].len() != n {
                return false;
            }
            w = w + 1;
        }
        true
    }

    /// Whether the places of every borrow are numbered.
    fn check_borrows(&self) -> (holds: bool)
        ensures
            holds == self.borrows_fit(),
    {
        let mut i: usize = 0;
        while i < self.borrow_set.len()
            invariant
                i <= self.borrow_set@.len(),
                forall|j: int|
                    0 <= j < i ==> self.place_indices.has(
                        (#[trigger] self.borrow_set@[j]).assigned_place@,
                    ) && self.place_indices.has(self.borrow_set@[j].borrowed_place@),
            decreases self.borrow_set@.len() - i,
        {
            let borrow = &self.borrow_set[i];
            if self.place_indices.find(&borrow.assigned_place).is_none()
                || self.place_indices.find(&borrow.borrowed_place).is_none() {
                assert(*borrow == self.borrow_set@[i as int]);
                return false;
            }
            i = i + 1;
        }
        true
    }

    /// Whether the two tables of borrows have the same blocks, with the same points.
    fn check_points(&self) -> (holds: bool)
        ensures
            holds == self.points_fit(),
    {
        if self.borrow_ranges.blocks.len() != self.aliases.blocks.len() {
            return false;
        }
        let mut b: usize = 0;
        while b < self.borrow_ranges.blocks.len()
            invariant
                b <= self.borrow_ranges.blocks@.len(),
                self.borrow_ranges.blocks@.len() == self.aliases.blocks@.len(),
                forall|c: int|
                    0 <= c < b ==> (#[trigger] self.borrow_ranges.blocks@[c])@.len()
                        == self.aliases.blocks@[c]@.len(),
            decreases self.borrow_ranges.blocks@.len() - b,
        {
            if self.borrow_ranges.blocks[b].len() != self.aliases.blocks[b].len() {
                return false;
            }
            b = b + 1;
        }
        true
    }

    /// Whether the local is a numbered place, and the set one of numbered borrows.
    fn check_alias(&self, borrows: &IndexSet, local: usize) -> (holds: bool)
        ensures
            holds == self.alias_fits(*borrows, local),
    {
        borrows.domain_len() == self.borrow_set.len() && self.place_indices.find(
            &Place::whole(local),
        ).is_some()
    }

    /// Whether the sets of borrows at one point are over the numbered borrows.
    fn check_point(&self, location: Location) -> (holds: bool)
        requires
            self.borrow_ranges.covers(location),
            self.aliases.covers(location),
        ensures
            holds == (self.borrow_ranges.value(location).domain_size() == self.borrow_set@.len()
                && self.aliases_fit(location)),
    {
        if self.borrow_ranges.at(location).domain_len() != self.borrow_set.len() {
            return false;
        }
        let aliases = self.aliases.at(location);
        let mut a: usize = 0;
        while a < aliases.len()
            invariant
                a <= aliases@.len(),
                *aliases == self.aliases.value(location),
                forall|b: int|
                    0 <= b < a ==> self.alias_fits(#[trigger] aliases@[b], b as usize),
            decreases aliases@.len() - a,
        {
            if !self.check_alias(&aliases[a], a) {
                assert(!self.alias_fits(self.aliases.value(location)@[a as int], a));
                return false;
            }
            a = a + 1;
        }
        true
    }

    /// Whether the tables speak of the same places, borrows and points.
    pub fn tables_fit(&self) -> (holds: bool)
        ensures
            holds == self.wf(),
    {
        if !self.check_facts() || !self.check_borrows() || !self.check_points() {
            return false;
        }
        let mut b: usize = 0;
        while b < self.borrow_ranges.blocks.len()
            invariant
                b <= self.borrow_ranges.blocks@.len(),
                self.points_fit(),
                forall|l: Location|
                    l.block < b && #[trigger] self.borrow_ranges.covers(l)
                        ==> self.borrow_ranges.value(l).domain_size() == self.borrow_set@.len()
                        && self.aliases_fit(l),
            decreases self.borrow_ranges.blocks@.len() - b,
        {
            let mut s: usize = 0;
            while s < self.borrow_ranges.blocks[b].len()
                invariant
                    b < self.borrow_ranges.blocks@.len(),
                    s <= self.borrow_ranges.blocks@[b as int]@.len(),
                    self.points_fit(),
                    forall|l: Location|
                        (l.block < b || l.block == b && l.statement_index < s)
                            && #[trigger] self.borrow_ranges.covers(l)
                            ==> self.borrow_ranges.value(l).domain_size() == self.borrow_set@.len()
                            && self.aliases_fit(l),
                decreases self.borrow_ranges.blocks@[b as int]@.len() - s,
            {
                let location = Location { block: b, statement_index: s };
                assert(self.borrow_ranges.covers(location));
                assert(self.borrow_ranges.blocks@[b as int]@.len()
                    == self.aliases.blocks@[b as int]@.len());
                assert(self.aliases.covers(location));
                if !self.check_point(location) {
                    return false;
                }
                s = s + 1;
            }
            b = b + 1;
        }
        proof {
            assert forall|l: Location| #[trigger] self.aliases.covers(l) implies self.aliases_fit(
                l,
            ) by {
                assert(self.borrow_ranges.blocks@[l.block as int]@.len()
                    == self.aliases.blocks@[l.block as int]@.len());
                assert(self.borrow_ranges.covers(l));
            }
        }
        true
    }

    /// Whether the analysis can be asked about `statement` at `location`.
    pub fn knows_statement(&self, statement: &Statement, location: Location) -> (holds: bool)
        ensures
            holds == (self.covers(location) && self.statement_numbered(*statement)),
    {
        if !self.borrow_ranges.has(location) {
            return false;
        }
        match statement {
            Statement::Assign(place, rvalue) => {
                if self.place_indices.find(place).is_none() {
                    return false;
                }
                let mut k: usize = 0;
                while k < rvalue.places.len()
                    invariant
                        k <= rvalue.places@.len(),
                        *statement == Statement::Assign(*place, *rvalue),
                        forall|j: int|
                            0 <= j < k ==> self.place_indices.has(
                                (#[trigger] rvalue.places@[j])@,
                            ),
                    decreases rvalue.places@.len() - k,
                {
                    if self.place_indices.find(&rvalue.places[k]).is_none() {
                        assert(!self.place_indices.has(rvalue.places@[k as int]@));
                        return false;
                    }
                    k = k + 1;
                }
                true
            },
            Statement::Other => true,
        }
    }

    /// Whether what an operand reads is numbered.
    fn knows_operand(&self, operand: &Operand) -> (holds: bool)
        ensures
            holds == self.operand_numbered(*operand),
    {
        match operand.place() {
            Some(place) => self.place_indices.find(place).is_some(),
            None => true,
        }
    }

    /// Whether what operands read is numbered.
    fn knows_args(&self, args: &Vec<Operand>) -> (holds: bool)
        ensures
            holds == self.args_numbered(args@),
    {
        let mut k: usize = 0;
        while k < args.len()
            invariant
                k <= args@.len(),
                forall|j: int| 0 <= j < k ==> self.operand_numbered(#[trigger] args@[j]),
            decreases args@.len() - k,
        {
            if !self.knows_operand(&args[k]) {
                assert(!self.operand_numbered(args@[k as int]));
                return false;
            }
            k = k + 1;
        }
        true
    }

    /// Whether the analysis can be asked about `terminator` at `location`.
    pub fn knows_terminator(&self, terminator: &Terminator, location: Location) -> (holds: bool)
        ensures
            holds == (self.covers(location) && self.terminator_numbered(*terminator)),
    {
        if !self.borrow_ranges.has(location) {
            return false;
        }
        match terminator {
            Terminator::Call { args, destination } => {
                if !self.knows_args(args) {
                    return false;
                }
                match destination {
                    Some(place) => self.place_indices.find(place).is_some(),
                    None => true,
                }
            },
            Terminator::SwitchInt { discr } => self.knows_operand(discr),
            Terminator::Other => true,
        }
    }
}

} // verus!
