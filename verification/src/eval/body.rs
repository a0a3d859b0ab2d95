//! What pointers a body hands to the functions that it calls.

use crate::mir::{Mutability, Operand, Place, PlaceIndices, PlaceModel, Pointer, Terminator};
use vstd::prelude::*;

verus! {

/// What is read of a body.
#[derive(Debug)]
pub struct EvalBody {
    /// The places that the tables speak of.
    pub places: PlaceIndices,
    /// The type of each place, lifetimes aside. Equal types have equal numbers.
    pub types: Vec<usize>,
    /// The pointers inside each place.
    pub pointers: Vec<Vec<Pointer>>,
    /// How many locals the body has.
    pub local_count: usize,
    /// How many arguments the function takes. They are the locals after the one that
    /// holds the result.
    pub arg_count: usize,
    /// How each block ends.
    pub terminators: Vec<Terminator>,
}

/// The places of the pointers that allow writing.
pub open spec fn writable(pointers: Seq<Pointer>) -> Seq<PlaceModel>
    decreases pointers.len(),
{
    if pointers.len() == 0 {
        Seq::empty()
    } else {
        let earlier = writable(pointers.drop_last());
        if pointers.last().mutability == Mutability::Mut {
            earlier.push(pointers.last().place@)
        } else {
            earlier
        }
    }
}

/// Whether one of some pointers does not allow writing.
pub open spec fn any_shared(pointers: Seq<Pointer>) -> bool {
    exists|i: int|
        0 <= i < pointers.len() && (#[trigger] pointers[i]).mutability == Mutability::Not
}

/// Whether two of some numbers, at different positions, are equal.
pub open spec fn any_repeated(numbers: Seq<usize>) -> bool {
    exists|i: int, j: int|
        0 <= i < numbers.len() && 0 <= j < numbers.len() && i != j && #[trigger] numbers[i]
            == #[trigger] numbers[j]
}

impl EvalBody {
    /// Whether the tables speak of a place.
    pub open spec fn knows(&self, place: PlaceModel) -> bool {
        self.places.has(place)
    }

    /// Whether the tables speak of every place that a terminator reads or writes.
    pub open spec fn knows_terminator(&self, terminator: Terminator) -> bool {
        match terminator {
            Terminator::Call { args, destination } => {
                &&& forall|i: int|
                    0 <= i < args@.len() ==> (#[trigger] args@[i].read() matches Some(place)
                        ==> self.knows(place))
                &&& destination matches Some(place) ==> self.knows(place@)
            },
            _ => true,
        }
    }

    /// Whether the tables fit together.
    pub open spec fn wf(&self) -> bool {
        &&& self.types@.len() == self.places@.len()
        &&& self.pointers@.len() == self.places@.len()
        &&& forall|n: int, i: int|
            0 <= n < self.pointers@.len() && 0 <= i < self.pointers@[n]@.len() ==> self.knows(
                (#[trigger] self.pointers@[n]@[i]).place@,
            )
        &&& forall|local: usize|
            1 <= local <= self.arg_count ==> self.knows(#[trigger] PlaceModel::whole(local))
        &&& forall|b: int|
            0 <= b < self.terminators@.len() ==> self.knows_terminator(
                #[trigger] self.terminators@[b],
            )
    }

    /// Whether the tables fit together.
    pub fn tables_fit(&self) -> (holds: bool)
        ensures
            holds == self.wf(),
    {
        let places = self.places.len();
        if self.types.len() != places || self.pointers.len() != places {
            return false;
        }
        let mut n: usize = 0;
        while n < self.pointers.len()
            invariant
                n <= self.pointers@.len(),
                forall|m: int, i: int|
                    0 <= m < n && 0 <= i < self.pointers@[m]@.len() ==> self.knows(
                        (#[trigger] self.pointers@[m]@[i]).place@,
                    ),
            decreases self.pointers@.len() - n,
        {
            let pointers = &self.pointers[n];
            let mut i: usize = 0;
            while i < pointers.len()
                invariant
                    n < self.pointers@.len(),
                    pointers@ == self.pointers@[n as int]@,
                    i <= pointers@.len(),
                    forall|k: int|
                        0 <= k < i ==> self.knows(
                            (#[trigger] self.pointers@[n as int]@[k]).place@,
                        ),
                decreases pointers@.len() - i,
            {
                if self.places.find(&pointers[i].place).is_none() {
                    assert(!self.knows(self.pointers@[n as int]@[i as int].place@));
                    return false;
                }
                i = i + 1;
            }
            n = n + 1;
        }
        let mut local: usize = 0;
        while local < self.arg_count
            invariant
                local <= self.arg_count,
                forall|l: usize| 1 <= l <= local ==> self.knows(#[trigger] PlaceModel::whole(l)),
            decreases self.arg_count - local,
        {
            local = local + 1;
            if self.places.find(&Place::whole(local)).is_none() {
                assert(!self.knows(PlaceModel::whole(local)));
                return false;
            }
        }
        let mut b: usize = 0;
        while b < self.terminators.len()
            invariant
                b <= self.terminators@.len(),
                forall|k: int|
                    0 <= k < b ==> self.knows_terminator(#[trigger] self.terminators@[k]),
            decreases self.terminators@.len() - b,
        {
            if !self.terminator_is_known(&self.terminators[b]) {
                assert(!self.knows_terminator(self.terminators@[b as int]));
                return false;
            }
            b = b + 1;
        }
        true
    }

    /// Whether the tables speak of every place that a terminator reads or writes.
    fn terminator_is_known(&self, terminator: &Terminator) -> (holds: bool)
        ensures
            holds == self.knows_terminator(*terminator),
    {
        match terminator {
            Terminator::Call { args, destination } => {
                let mut i: usize = 0;
                while i < args.len()
                    invariant
                        i <= args@.len(),
                        *terminator == (Terminator::Call {
                            args: *args,
                            destination: *destination,
                        }),
                        forall|k: int|
                            0 <= k < i ==> (#[trigger] args@[k].read() matches Some(place)
                                ==> self.knows(place)),
                    decreases args@.len() - i,
                {
                    if let Some(place) = args[i].place() {
                        if self.places.find(place).is_none() {
                            assert(args@[i as int].read() == Some(place@));
                            return false;
                        }
                    }
                    i = i + 1;
                }
                match destination {
                    Some(place) => self.places.find(place).is_some(),
                    None => true,
                }
            },
            _ => true,
        }
    }

    /// The type of a place.
    pub open spec fn type_of(&self, place: PlaceModel) -> usize {
        self.types@[self.places.index_of(place) as int]
    }

    /// The types of some places.
    pub open spec fn types_of(&self, places: Seq<PlaceModel>) -> Seq<usize> {
        places.map_values(|place: PlaceModel| self.type_of(place))
    }

    /// The pointers inside a place.
    pub open spec fn pointers_in(&self, place: PlaceModel) -> Seq<Pointer> {
        self.pointers@[self.places.index_of(place) as int]@
    }

    /// The pointers inside the places that some operands read.
    pub open spec fn pointers_read(&self, args: Seq<Operand>) -> Seq<Pointer>
        decreases args.len(),
    {
        if args.len() == 0 {
            Seq::empty()
        } else {
            let earlier = self.pointers_read(args.drop_last());
            match args.last().read() {
                Some(place) => earlier + self.pointers_in(place),
                None => earlier,
            }
        }
    }

    /// The pointers inside the place that a call writes to.
    pub open spec fn pointers_written(&self, destination: Option<Place>) -> Seq<Pointer> {
        match destination {
            Some(place) => self.pointers_in(place@),
            None => Seq::empty(),
        }
    }

    /// The pointers inside the first `count` arguments.
    pub open spec fn pointers_taken(&self, count: nat) -> Seq<Pointer>
        decreases count,
    {
        if count == 0 {
            Seq::empty()
        } else {
            self.pointers_taken((count - 1) as nat) + self.pointers_in(
                PlaceModel::whole(count as usize),
            )
        }
    }

    /// Whether a terminator hands a pointer that does not allow writing to a call.
    pub open spec fn hands_shared(&self, terminator: Terminator) -> bool {
        terminator matches Terminator::Call { args, destination } && any_shared(
            self.pointers_read(args@),
        )
    }

    /// Whether two pointers that allow writing and that a call takes or gives are of
    /// one type.
    pub open spec fn hands_same_type(&self, terminator: Terminator) -> bool {
        terminator matches Terminator::Call { args, destination } && any_repeated(
            self.types_of(
                writable(self.pointers_read(args@) + self.pointers_written(destination)),
            ),
        )
    }

    /// Whether two pointers that allow writing and that the function takes are of one
    /// type.
    pub open spec fn takes_same_type(&self) -> bool {
        any_repeated(self.types_of(writable(self.pointers_taken(self.arg_count as nat))))
    }
}

/// Finds out what pointers a body hands to the functions that it calls.
pub struct EvalBodyVisitor<'a> {
    pub body: &'a EvalBody,
    pub has_immut_ptr_in_call: bool,
    pub has_same_type_ptrs_in_call: bool,
    pub has_same_type_ptrs_in_input: bool,
}

/// Adds the pointers of one list to another.
fn add_pointers<'a>(pointers: &mut Vec<&'a Pointer>, more: &'a Vec<Pointer>)
    ensures
        pointed(final(pointers)@) == pointed(old(pointers)@) + more@,
{
    let ghost before = pointers@;
    let mut i: usize = 0;
    assert(pointed(pointers@) =~= pointed(before) + more@.take(0));
    while i < more.len()
        invariant
            i <= more@.len(),
            pointed(pointers@) == pointed(before) + more@.take(i as int),
        decreases more@.len() - i,
    {
        let ghost now = pointers@;
        pointers.push(&more[i]);
        i = i + 1;
        assert(pointed(pointers@) =~= pointed(now).push(more@[i - 1]));
        assert(pointed(pointers@) =~= pointed(before) + more@.take(i as int));
    }
    assert(more@.take(i as int) =~= more@);
}

/// What a list of references refers to.
spec fn pointed(pointers: Seq<&Pointer>) -> Seq<Pointer> {
    pointers.map_values(|pointer: &Pointer| *pointer)
}

/// The places of the pointers that allow writing.
fn writable_places<'a>(pointers: &Vec<&'a Pointer>) -> (places: Vec<&'a Place>)
    ensures
        place_models(places@) == writable(pointed(pointers@)),
{
    let mut places: Vec<&'a Place> = Vec::new();
    let mut i: usize = 0;
    assert(place_models(places@) =~= writable(pointed(pointers@).take(0)));
    while i < pointers.len()
        invariant
            i <= pointers@.len(),
            place_models(places@) == writable(pointed(pointers@).take(i as int)),
        decreases pointers@.len() - i,
    {
        let ghost now = places@;
        let pointer = pointers[i];
        assert(pointed(pointers@).take(i + 1).drop_last() =~= pointed(pointers@).take(i as int));
        assert(pointed(pointers@).take(i + 1).last() == *pointer);
        if pointer.mutability == Mutability::Mut {
            places.push(&pointer.place);
            assert(place_models(places@) =~= place_models(now).push(pointer.place@));
        }
        i = i + 1;
    }
    assert(pointed(pointers@).take(i as int) =~= pointed(pointers@));
    places
}

/// What a list of references to places denotes.
pub open spec fn place_models(places: Seq<&Place>) -> Seq<PlaceModel> {
    places.map_values(|place: &Place| place@)
}

/// Whether one of some pointers does not allow writing.
fn has_shared(pointers: &Vec<&Pointer>) -> (found: bool)
    ensures
        found == any_shared(pointed(pointers@)),
{
    let mut i: usize = 0;
    while i < pointers.len()
        invariant
            i <= pointers@.len(),
            forall|k: int|
                0 <= k < i ==> (#[trigger] pointed(pointers@)[k]).mutability != Mutability::Not,
        decreases pointers@.len() - i,
    {
        assert(pointed(pointers@)[i as int] == *pointers@[i as int]);
        if pointers[i].mutability == Mutability::Not {
            return true;
        }
        i = i + 1;
    }
    false
}

/// Only known places have pointers inside, so what is writable is known.
proof fn lemma_writable_known(body: &EvalBody, pointers: Seq<Pointer>)
    requires
        forall|i: int| 0 <= i < pointers.len() ==> body.knows((#[trigger] pointers[i]).place@),
    ensures
        forall|i: int|
            0 <= i < writable(pointers).len() ==> body.knows(#[trigger] writable(pointers)[i]),
    decreases pointers.len(),
{
    if pointers.len() > 0 {
        let earlier = writable(pointers.drop_last());
        lemma_writable_known(body, pointers.drop_last());
        assert(body.knows(pointers[pointers.len() - 1].place@));
        assert forall|i: int| 0 <= i < writable(pointers).len() implies body.knows(
            #[trigger] writable(pointers)[i],
        ) by {
            if i < earlier.len() {
                assert(body.knows(earlier[i]));
            }
        }
    }
}

impl<'a> EvalBodyVisitor<'a> {
    /// A visitor that has seen nothing.
    pub fn new(body: &'a EvalBody) -> (visitor: EvalBodyVisitor<'a>)
        ensures
            visitor.body == body,
            !visitor.has_immut_ptr_in_call,
            !visitor.has_same_type_ptrs_in_call,
            !visitor.has_same_type_ptrs_in_input,
    {
        EvalBodyVisitor {
            body,
            has_immut_ptr_in_call: false,
            has_same_type_ptrs_in_call: false,
            has_same_type_ptrs_in_input: false,
        }
    }

    /// The type of a place, lifetimes aside.
    pub fn place_ty(&self, place: &Place) -> (ty: usize)
        requires
            self.body.wf(),
            self.body.knows(place@),
        ensures
            ty == self.body.type_of(place@),
    {
        let index = self.body.places.index(place);
        self.body.types[index]
    }

    /// Whether two of some places are of one type.
    pub fn any_same_type_ptrs(&self, places: &Vec<&Place>) -> (found: bool)
        requires
            self.body.wf(),
            forall|i: int|
                0 <= i < places@.len() ==> self.body.knows((#[trigger] places@[i])@),
        ensures
            found == any_repeated(self.body.types_of(place_models(places@))),
    {
        let ghost types = self.body.types_of(place_models(places@));
        let mut i: usize = 0;
        while i < places.len()
            invariant
                i <= places@.len(),
                self.body.wf(),
                types == self.body.types_of(place_models(places@)),
                forall|k: int|
                    0 <= k < places@.len() ==> self.body.knows((#[trigger] places@[k])@),
                forall|k: int, j: int|
                    0 <= k < i && 0 <= j < types.len() && k != j ==> #[trigger] types[k]
                        != #[trigger] types[j],
            decreases places@.len() - i,
        {
            assert(self.body.knows(places@[i as int]@));
            let ty = self.place_ty(places[i]);
            assert(types[i as int] == ty);
            let mut j: usize = 0;
            while j < places.len()
                invariant
                    i < places@.len(),
                    j <= places@.len(),
                    self.body.wf(),
                    types == self.body.types_of(place_models(places@)),
                    types[i as int] == ty,
                    forall|k: int|
                        0 <= k < places@.len() ==> self.body.knows((#[trigger] places@[k])@),
                    forall|k: int| 0 <= k < j && k != i ==> ty != #[trigger] types[k],
                decreases places@.len() - j,
            {
                assert(self.body.knows(places@[j as int]@));
                let other = self.place_ty(places[j]);
                assert(types[j as int] == other);
                if i != j && ty == other {
                    return true;
                }
                j = j + 1;
            }
            i = i + 1;
        }
        false
    }

    /// Looks at how a block ends.
    pub fn visit_terminator(&mut self, terminator: &Terminator)
        requires
            old(self).body.wf(),
            old(self).body.knows_terminator(*terminator),
        ensures
            final(self).body == old(self).body,
            final(self).has_immut_ptr_in_call == (old(self).has_immut_ptr_in_call || old(
                self,
            ).body.hands_shared(*terminator)),
            final(self).has_same_type_ptrs_in_call == (old(self).has_same_type_ptrs_in_call || old(
                self,
            ).body.hands_same_type(*terminator)),
            final(self).has_same_type_ptrs_in_input == old(self).has_same_type_ptrs_in_input,
    {
        if let Terminator::Call { args, destination } = terminator {
            let body = self.body;
            let mut pointers: Vec<&'a Pointer> = Vec::new();
            assert(pointed(pointers@) =~= body.pointers_read(args@.take(0)));
            let mut i: usize = 0;
            while i < args.len()
                invariant
                    i <= args@.len(),
                    body.wf(),
                    forall|k: int|
                        0 <= k < args@.len() ==> (#[trigger] args@[k].read() matches Some(place)
                            ==> body.knows(place)),
                    pointed(pointers@) == body.pointers_read(args@.take(i as int)),
                    forall|k: int|
                        0 <= k < pointers@.len() ==> body.knows(
                            (#[trigger] pointed(pointers@)[k]).place@,
                        ),
                decreases args@.len() - i,
            {
                assert(args@.take(i + 1).drop_last() =~= args@.take(i as int));
                assert(args@.take(i + 1).last() == args@[i as int]);
                assert(args@[i as int].read() matches Some(place) ==> body.knows(place));
                let ghost now = pointers@;
                if let Some(place) = args[i].place() {
                    let index = body.places.index(place);
                    add_pointers(&mut pointers, &body.pointers[index]);
                    assert forall|k: int| 0 <= k < pointers@.len() implies body.knows(
                        (#[trigger] pointed(pointers@)[k]).place@,
                    ) by {
                        assert(pointed(pointers@).len() == pointers@.len());
                        if k < now.len() {
                            assert(pointed(pointers@)[k] == pointed(now)[k]);
                        } else {
                            assert(pointed(pointers@)[k] == body.pointers@[index as int]@[k
                                - now.len()]);
                        }
                    }
                }
                i = i + 1;
            }
            assert(args@.take(i as int) =~= args@);
            let has_immut_ptr = has_shared(&pointers);
            let ghost read = pointers@;
            if let Some(place) = destination {
                let index = body.places.index(place);
                add_pointers(&mut pointers, &body.pointers[index]);
                assert forall|k: int| 0 <= k < pointers@.len() implies body.knows(
                    (#[trigger] pointed(pointers@)[k]).place@,
                ) by {
                    assert(pointed(pointers@).len() == pointers@.len());
                    if k < read.len() {
                        assert(pointed(pointers@)[k] == pointed(read)[k]);
                    } else {
                        assert(pointed(pointers@)[k] == body.pointers@[index as int]@[k
                            - read.len()]);
                    }
                }
            }
            assert(pointed(pointers@) =~= body.pointers_read(args@) + body.pointers_written(
                *destination,
            ));
            let places = writable_places(&pointers);
            proof {
                lemma_writable_known(body, pointed(pointers@));
                assert forall|k: int| 0 <= k < places@.len() implies body.knows(
                    (#[trigger] places@[k])@,
                ) by {
                    assert(place_models(places@)[k] == places@[k]@);
                }
            }
            let has_same_type_ptrs = self.any_same_type_ptrs(&places);
            self.has_immut_ptr_in_call = self.has_immut_ptr_in_call || has_immut_ptr;
            self.has_same_type_ptrs_in_call = self.has_same_type_ptrs_in_call
                || has_same_type_ptrs;
        }
    }

    /// Looks at how each block ends, and at the arguments.
    pub fn visit_body(&mut self)
        requires
            old(self).body.wf(),
        ensures
            final(self).body == old(self).body,
            final(self).has_immut_ptr_in_call == (old(self).has_immut_ptr_in_call || exists|b: int|
                0 <= b < old(self).body.terminators@.len() && old(self).body.hands_shared(
                    #[trigger] old(self).body.terminators@[b],
                )),
            final(self).has_same_type_ptrs_in_call == (old(self).has_same_type_ptrs_in_call
                || exists|b: int|
                0 <= b < old(self).body.terminators@.len() && old(self).body.hands_same_type(
                    #[trigger] old(self).body.terminators@[b],
                )),
            final(self).has_same_type_ptrs_in_input == (old(self).has_same_type_ptrs_in_input
                || old(self).body.takes_same_type()),
    {
        let body = self.body;
        let mut b: usize = 0;
        while b < body.terminators.len()
            invariant
                b <= body.terminators@.len(),
                body.wf(),
                self.body == body,
                old(self).body == body,
                self.has_immut_ptr_in_call == (old(self).has_immut_ptr_in_call || exists|k: int|
                    0 <= k < b && body.hands_shared(#[trigger] body.terminators@[k])),
                self.has_same_type_ptrs_in_call == (old(self).has_same_type_ptrs_in_call
                    || exists|k: int|
                    0 <= k < b && body.hands_same_type(#[trigger] body.terminators@[k])),
                self.has_same_type_ptrs_in_input == old(self).has_same_type_ptrs_in_input,
            decreases body.terminators@.len() - b,
        {
            assert(body.knows_terminator(body.terminators@[b as int]));
            self.visit_terminator(&body.terminators[b]);
            b = b + 1;
        }
        let mut pointers: Vec<&'a Pointer> = Vec::new();
        assert(pointed(pointers@) =~= body.pointers_taken(0));
        let mut taken: usize = 0;
        while taken < body.arg_count
            invariant
                taken <= body.arg_count,
                body.wf(),
                pointed(pointers@) == body.pointers_taken(taken as nat),
                forall|k: int|
                    0 <= k < pointers@.len() ==> body.knows(
                        (#[trigger] pointed(pointers@)[k]).place@,
                    ),
            decreases body.arg_count - taken,
        {
            let ghost now = pointers@;
            taken = taken + 1;
            let place = Place::whole(taken);
            assert(body.knows(PlaceModel::whole(taken)));
            let index = body.places.index(&place);
            add_pointers(&mut pointers, &body.pointers[index]);
            assert forall|k: int| 0 <= k < pointers@.len() implies body.knows(
                (#[trigger] pointed(pointers@)[k]).place@,
            ) by {
                assert(pointed(pointers@).len() == pointers@.len());
                if k < now.len() {
                    assert(pointed(pointers@)[k] == pointed(now)[k]);
                } else {
                    assert(pointed(pointers@)[k] == body.pointers@[index as int]@[k - now.len()]);
                }
            }
        }
        let places = writable_places(&pointers);
        proof {
            lemma_writable_known(body, pointed(pointers@));
            assert forall|k: int| 0 <= k < places@.len() implies body.knows(
                (#[trigger] places@[k])@,
            ) by {
                assert(place_models(places@)[k] == places@[k]@);
            }
        }
        let has_same_type_ptrs = self.any_same_type_ptrs(&places);
        self.has_same_type_ptrs_in_input = self.has_same_type_ptrs_in_input || has_same_type_ptrs;
    }
}

/// Whether two pointers are of one type does not depend on the order in which
/// pointers are listed.
pub proof fn order_of_types_does_not_matter(a: Seq<usize>, b: Seq<usize>)
    requires
        a.to_multiset() == b.to_multiset(),
    ensures
        any_repeated(a) == any_repeated(b),
{
    if !any_repeated(a) {
        lemma_not_repeated(a, b);
    }
    if !any_repeated(b) {
        lemma_not_repeated(b, a);
    }
}

/// If nothing is repeated in one order, nothing is in another.
proof fn lemma_not_repeated(a: Seq<usize>, b: Seq<usize>)
    requires
        a.to_multiset() == b.to_multiset(),
        !any_repeated(a),
    ensures
        !any_repeated(b),
{
    assert(a.no_duplicates()) by {
        assert forall|i: int, j: int| 0 <= i < a.len() && 0 <= j < a.len() && i != j implies a[i]
            != a[j] by {}
    }
    a.lemma_multiset_has_no_duplicates();
    b.lemma_multiset_has_no_duplicates_conv();
}

} // verus!
