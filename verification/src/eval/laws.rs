//! What holds of the measurements of slices.

use super::body::{self, EvalBody};
use super::tokens::{self, Token, TokenTree};
use super::visitor::{self, EvalCrateVisitor, EvalResult, FunctionModel, Outcome, Plan, Task};
use crate::config::{ContextMode, EvalMode, MutabilityMode, PointerMode, Range};
use crate::mir::{Mutability, Operand, Place, PlaceModel, Pointer, Terminator};
use crate::source::Span;
use vstd::prelude::*;

verus! {

/// Ranges taken one list after the other give their spans one list after the other.
/// A range that ends on a line of the file gives its span, on however many lines it
/// stands; one that ends after the last line gives none.
pub proof fn spans_of_ranges_follow_each_other(
    first: Seq<Range>,
    second: Seq<Range>,
    range: Range,
    begins: Seq<u32>,
)
    ensures
        visitor::spans_among(first + second, begins) == visitor::spans_among(first, begins)
            + visitor::spans_among(second, begins),
        range.end_line < begins.len() ==> range.span_among(begins) is Some && visitor::spans_among(
            seq![range],
            begins,
        ) == seq![range.span_among(begins)->0],
        range.end_line >= begins.len() ==> visitor::spans_among(seq![range], begins) == Seq::<
            Span,
        >::empty(),
    decreases second.len(),
{
    if second.len() == 0 {
        assert(first + second =~= first);
        assert(visitor::spans_among(first, begins) + visitor::spans_among(second, begins)
            =~= visitor::spans_among(first, begins));
    } else {
        spans_of_ranges_follow_each_other(first, second.drop_last(), range, begins);
        assert((first + second).drop_last() =~= first + second.drop_last());
        assert(visitor::spans_among(first + second, begins) =~= visitor::spans_among(first, begins)
            + visitor::spans_among(second, begins));
    }
    let one = seq![range];
    assert(one.drop_last() =~= Seq::<Range>::empty());
    assert(visitor::spans_among(one.drop_last(), begins) =~= Seq::<Span>::empty());
    if range.end_line < begins.len() {
        assert(visitor::spans_among(one, begins) =~= seq![range.span_among(begins)->0]);
    }
}

/// Each range of a slice that ends on a line of the file, on one line or over
/// several, is among the spans of the slice, and a token within it is counted; and
/// each span of the slice is that of such a range.
pub proof fn slice_takes_in_all_its_ranges(
    ranges: Seq<Range>,
    begins: Seq<u32>,
    i: int,
    token: Token,
    span: Span,
)
    ensures
        0 <= i < ranges.len() && ranges[i].end_line < begins.len() ==> {
            let own = ranges[i].span_among(begins);
            &&& own is Some
            &&& visitor::spans_among(ranges, begins).contains(own->0)
            &&& own->0.lo <= token.span.lo && token.span.hi <= own->0.hi ==> tokens::count_within(
                seq![token],
                visitor::spans_among(ranges, begins),
            ) == 1
        },
        visitor::spans_among(ranges, begins).contains(span) ==> exists|k: int|
            0 <= k < ranges.len() && (#[trigger] ranges[k]).end_line < begins.len()
                && ranges[k].span_among(begins) == Some(span),
{
    if 0 <= i < ranges.len() && ranges[i].end_line < begins.len() {
        lemma_span_among_kept(ranges, begins, i);
        tokens_are_counted_one_by_one(
            Seq::empty(),
            seq![token],
            visitor::spans_among(ranges, begins),
            token,
        );
    }
    if visitor::spans_among(ranges, begins).contains(span) {
        lemma_span_among_from(ranges, begins, span);
    }
}

proof fn lemma_span_among_kept(ranges: Seq<Range>, begins: Seq<u32>, i: int)
    requires
        0 <= i < ranges.len(),
        ranges[i].end_line < begins.len(),
    ensures
        ranges[i].span_among(begins) is Some,
        visitor::spans_among(ranges, begins).contains(ranges[i].span_among(begins)->0),
    decreases ranges.len(),
{
    let earlier = visitor::spans_among(ranges.drop_last(), begins);
    let all = visitor::spans_among(ranges, begins);
    if i < ranges.len() - 1 {
        lemma_span_among_kept(ranges.drop_last(), begins, i);
        let span = ranges[i].span_among(begins)->0;
        let k = choose|k: int| 0 <= k < earlier.len() && earlier[k] == span;
        assert(all[k] == span);
    } else {
        assert(all[earlier.len() as int] == ranges[i].span_among(begins)->0);
    }
}

proof fn lemma_span_among_from(ranges: Seq<Range>, begins: Seq<u32>, span: Span)
    requires
        visitor::spans_among(ranges, begins).contains(span),
    ensures
        exists|k: int|
            0 <= k < ranges.len() && (#[trigger] ranges[k]).end_line < begins.len()
                && ranges[k].span_among(begins) == Some(span),
    decreases ranges.len(),
{
    let before = ranges.drop_last();
    let earlier = visitor::spans_among(before, begins);
    let all = visitor::spans_among(ranges, begins);
    let j = choose|j: int| 0 <= j < all.len() && all[j] == span;
    if j < earlier.len() {
        assert(earlier[j] == span);
        lemma_span_among_from(before, begins, span);
        let k = choose|k: int|
            0 <= k < before.len() && (#[trigger] before[k]).end_line < begins.len()
                && before[k].span_among(begins) == Some(span);
        assert(ranges[k] == before[k]);
    } else {
        assert(ranges[ranges.len() - 1] == ranges.last());
    }
}

/// Tokens are counted one by one: a list counts what its parts count, and a token
/// counts once if one of the spans begins no later and ends no earlier than it, and
/// not at all otherwise.
pub proof fn tokens_are_counted_one_by_one(
    first: Seq<Token>,
    second: Seq<Token>,
    spans: Seq<Span>,
    token: Token,
)
    ensures
        tokens::count_within(first + second, spans) == tokens::count_within(first, spans)
            + tokens::count_within(second, spans),
        (exists|i: int|
            0 <= i < spans.len() && (#[trigger] spans[i]).lo <= token.span.lo && token.span.hi
                <= spans[i].hi) ==> tokens::count_within(seq![token], spans) == 1,
        (forall|i: int|
            0 <= i < spans.len() ==> (#[trigger] spans[i]).lo > token.span.lo || token.span.hi
                > spans[i].hi) ==> tokens::count_within(seq![token], spans) == 0,
    decreases second.len(),
{
    if second.len() == 0 {
        assert(first + second =~= first);
    } else {
        tokens_are_counted_one_by_one(first, second.drop_last(), spans, token);
        assert((first + second).drop_last() =~= first + second.drop_last());
    }
    let one = seq![token];
    assert(one.drop_last() =~= Seq::<Token>::empty());
    assert(tokens::count_within(one.drop_last(), spans) == 0);
    assert(one.last() == token);
    if exists|i: int|
        0 <= i < spans.len() && (#[trigger] spans[i]).lo <= token.span.lo && token.span.hi
            <= spans[i].hi {
        let i = choose|i: int|
            0 <= i < spans.len() && (#[trigger] spans[i]).lo <= token.span.lo && token.span.hi
                <= spans[i].hi;
        assert(spans[i].encloses(token.span));
    }
}

/// The tokens of a single token are itself, and a stream without trees has none.
pub proof fn single_token_is_kept(token: Token)
    ensures
        tokens::all_tokens(seq![TokenTree::Token(token)]) == seq![token],
        tokens::all_tokens(Seq::<TokenTree>::empty()) == Seq::<Token>::empty(),
{
    let one = seq![TokenTree::Token(token)];
    assert(one.drop_last() =~= Seq::<TokenTree>::empty());
    assert(tokens::all_tokens(one.drop_last()) =~= Seq::<Token>::empty());
    assert(tokens::tree_tokens(one.last()) == seq![token]);
    assert(tokens::all_tokens(one) =~= seq![token]);
}

/// A result tells the settings that it was measured with, the local, the function
/// and what slicing gave, each in its own field.
pub proof fn result_tells_each_thing_in_its_field(
    result: EvalResult,
    plan: Plan,
    function: FunctionModel,
    local: usize,
    eval_mode: EvalMode,
    outcome: Outcome,
)
    requires
        result.tells(plan, function, local, eval_mode, outcome),
    ensures
        result.mutability_mode == eval_mode.mutability_mode,
        result.context_mode == eval_mode.context_mode,
        result.pointer_mode == eval_mode.pointer_mode,
        result.sliced_local == local,
        function.range is Ok,
        result.function_range.start_line == function.range->Ok_0.start_line,
        result.function_range.start_col == function.range->Ok_0.start_col,
        result.function_range.end_line == function.range->Ok_0.end_line,
        result.function_range.end_col == function.range->Ok_0.end_col,
        result.function_range.filename@ == function.range->Ok_0.filename,
        result.function_path@ == function.path,
        result.num_instructions == outcome.num_instructions,
        result.num_relevant_instructions == outcome.num_relevant_instructions,
        result.num_tokens == function.tokens.len(),
        result.num_relevant_tokens == tokens::count_within(
            function.tokens,
            visitor::spans_among(outcome.ranges@, function.begins),
        ),
        result.nanoseconds == outcome.nanoseconds,
        result.has_immut_ptr_in_call == plan.has_immut_ptr_in_call,
        result.has_same_type_ptrs_in_call == plan.has_same_type_ptrs_in_call,
        result.has_same_type_ptrs_in_input == plan.has_same_type_ptrs_in_input,
        result.reached_library == outcome.reached_library,
{
    assert(result.function_range@.start_line == result.function_range.start_line as int);
}

/// What is gathered of a function comes after what was there, which stays as it is:
/// one list for each local of the plan, in order, and in it one result for each
/// mode, in order, or none if the function has no range.
pub proof fn gathered_results_come_last(
    before: EvalCrateVisitor,
    plan: Plan,
    function: FunctionModel,
    outcomes: Seq<Vec<Outcome>>,
    after: EvalCrateVisitor,
    old: int,
    i: int,
    j: int,
)
    requires
        before.gathers(plan, function, outcomes, after),
    ensures
        after.eval_results@.len() == before.eval_results@.len() + plan.locals@.len(),
        0 <= old < before.eval_results@.len() ==> after.eval_results@[old]
            == before.eval_results@[old],
        0 <= i < plan.locals@.len() ==> {
            let results = after.eval_results@[before.eval_results@.len() + i]@;
            &&& function.range is Err ==> results.len() == 0
            &&& function.range is Ok ==> results.len() == 8
            &&& function.range is Ok && 0 <= j < 8 ==> results[j].tells(
                plan,
                function,
                plan.locals@[i],
                visitor::modes()[j],
                outcomes[i]@[j],
            )
        },
{
    if 0 <= old < before.eval_results@.len() {
        assert(after.eval_results@.take(before.eval_results@.len() as int)[old]
            == after.eval_results@[old]);
    }
    if 0 <= i < plan.locals@.len() {
        let local = plan.locals@[i];
        let results = after.eval_results@[before.eval_results@.len() + i]@;
        assert(visitor::local_told(results, plan, function, local, outcomes[i]@));
        if function.range is Ok && 0 <= j < 8 {
            let result = results[j];
        }
    }
}

/// Modes are tried with mutability first told apart and then not; within that with
/// calls looked into and then not; and within that with pointers followed precisely
/// and then not.
pub proof fn modes_come_in_order(i: int)
    requires
        0 <= i < 8,
    ensures
        visitor::modes().len() == 8,
        visitor::modes()[i].mutability_mode == MutabilityMode::DistinguishMut <==> i < 4,
        visitor::modes()[i].context_mode == ContextMode::Recurse <==> i % 4 < 2,
        visitor::modes()[i].pointer_mode == PointerMode::Precise <==> i % 2 == 0,
{
}

/// A function is passed over if and only if a macro wrote it or its text is not at
/// hand. One that is not is handed on with its span and its body, gets the next
/// position, and moves the counter on by one; nothing that was gathered changes.
pub proof fn function_is_taken_up_unless_made_or_far(
    before: EvalCrateVisitor,
    body_span: Span,
    from_expansion: bool,
    body_id: usize,
    has_source: bool,
    after: EvalCrateVisitor,
    task: Option<Task>,
)
    requires
        before.meets(body_span, from_expansion, body_id, has_source, after, task),
    ensures
        after.eval_results == before.eval_results,
        after.total == before.total,
        task is None <==> from_expansion || !has_source,
        task is None ==> after.count == before.count,
        task matches Some(t) ==> t.body_span == body_span && t.body_id == body_id && t.position
            == before.count && (before.count < usize::MAX ==> after.count == before.count + 1) && (
        before.count == usize::MAX ==> after.count == 0),
{
}

/// A sample has no number twice and none that is not below the count; it has the
/// asked number of them, or, if there are not so many, each one in its place.
pub proof fn sample_is_of_the_asked_size(chosen: Seq<usize>, count: usize, amount: usize)
    requires
        visitor::is_sample(chosen, count, amount),
    ensures
        chosen.len() == if count > amount {
            amount
        } else {
            count
        },
        forall|i: int| 0 <= i < chosen.len() ==> #[trigger] chosen[i] < count,
        forall|i: int, j: int| 0 <= i < j < chosen.len() ==> chosen[i] != chosen[j],
        count <= amount ==> forall|i: int| 0 <= i < count ==> #[trigger] chosen[i] == i,
{
}

/// A function is sliced on each of its locals if it has no more than three hundred,
/// and on three hundred of them otherwise.
pub proof fn no_more_than_three_hundred_locals_are_sliced_on(
    chosen: Seq<usize>,
    count: usize,
    local: usize,
)
    requires
        visitor::is_sample(chosen, count, visitor::SAMPLE_SIZE),
    ensures
        count <= 300 ==> (chosen.contains(local) <==> local < count),
        count > 300 ==> chosen.len() == 300,
{
    if count <= 300 && local < count {
        assert(chosen[local as int] == local);
    }
}

/// The tables of a body fit together if there is a type and a list of pointers for
/// each place, and every place that they and the terminators speak of is numbered.
pub proof fn numbered_body_fits(body: EvalBody)
    requires
        body.types@.len() == body.places@.len(),
        body.pointers@.len() == body.places@.len(),
        forall|n: int, i: int|
            0 <= n < body.pointers@.len() && 0 <= i < body.pointers@[n]@.len() ==> body.places.has(
                (#[trigger] body.pointers@[n]@[i]).place@,
            ),
        forall|local: usize|
            1 <= local <= body.arg_count ==> body.places.has(#[trigger] PlaceModel::whole(local)),
        forall|b: int|
            0 <= b < body.terminators@.len() ==> (#[trigger] body.terminators@[b] matches
                Terminator::Call { args, destination } ==> (forall|k: int|
                0 <= k < args@.len() ==> (source_of(#[trigger] args@[k]) matches Some(place)
                    ==> body.places.has(place))) && (destination matches Some(place)
                ==> body.places.has(place@))),
    ensures
        body.wf(),
{
    assert forall|b: int| 0 <= b < body.terminators@.len() implies body.knows_terminator(
        #[trigger] body.terminators@[b],
    ) by {
        if let Terminator::Call { args, destination } = body.terminators@[b] {
            assert forall|k: int| 0 <= k < args@.len() implies (
            #[trigger] args@[k].read() matches Some(place) ==> body.knows(place)) by {
                assert(source_of(args@[k]) == args@[k].read());
            }
        }
    }
}

/// What is told of a function are its own path and tokens, the range of its span,
/// and the lines of the file that it begins in.
pub proof fn function_is_told_by_its_file(
    files: Seq<crate::source::FileModel>,
    body_span: Span,
    path: Seq<char>,
    tokens: Seq<Token>,
)
    ensures
        ({
            let function = visitor::function_model(files, body_span, path, tokens);
            let file = files[crate::source::file_at(files, body_span.lo)];
            &&& function.path == path
            &&& function.tokens == tokens
            &&& function.range == crate::config::range_in_files(files, body_span)
            &&& file.start != file.end ==> function.begins == file.lines
        }),
{
}

/// What slicing a function gave can be told if the function resolves, whether or not
/// it has a range, and there is an outcome for each local in each of the eight modes
/// whose ranges are found in the file. Then only.
pub proof fn complete_outcomes_can_be_told(
    files: Seq<crate::source::FileModel>,
    body_span: Span,
    plan: Plan,
    outcomes: Seq<Vec<Outcome>>,
)
    ensures
        visitor::recordable(files, body_span, plan, outcomes) <==> {
            let begins = files[crate::source::file_at(files, body_span.lo)].line_begins();
            &&& crate::source::resolves(files, body_span)
            &&& outcomes.len() == plan.locals@.len()
            &&& forall|i: int| 0 <= i < outcomes.len() ==> (#[trigger] outcomes[i])@.len() == 8
            &&& forall|i: int, j: int, k: int|
                #![trigger outcomes[i]@[j].ranges@[k]]
                0 <= i < outcomes.len() && 0 <= j < 8 && 0 <= k < outcomes[i]@[j].ranges@.len()
                    ==> outcomes[i]@[j].ranges@[k].fits(begins)
        },
{
    let begins = files[crate::source::file_at(files, body_span.lo)].line_begins();
    if visitor::outcomes_fit(plan, outcomes, begins) {
        assert forall|i: int| 0 <= i < outcomes.len() implies (#[trigger] outcomes[i])@.len()
            == 8 by {
            assert(visitor::local_outcomes_fit(outcomes[i]@, begins));
        }
        assert forall|i: int, j: int, k: int|
            #![trigger outcomes[i]@[j].ranges@[k]]
            0 <= i < outcomes.len() && 0 <= j < 8 && 0 <= k
                < outcomes[i]@[j].ranges@.len() implies outcomes[i]@[j].ranges@[k].fits(begins) by {
            assert(visitor::local_outcomes_fit(outcomes[i]@, begins));
            assert(visitor::all_fit(outcomes[i]@[j].ranges@, begins));
        }
    }
    if outcomes.len() == plan.locals@.len() && (forall|i: int|
        0 <= i < outcomes.len() ==> (#[trigger] outcomes[i])@.len() == 8) && (forall|
        i: int,
        j: int,
        k: int,
    |
        #![trigger outcomes[i]@[j].ranges@[k]]
        0 <= i < outcomes.len() && 0 <= j < 8 && 0 <= k < outcomes[i]@[j].ranges@.len()
            ==> outcomes[i]@[j].ranges@[k].fits(begins)) {
        assert forall|i: int| 0 <= i < outcomes.len() implies visitor::local_outcomes_fit(
            #[trigger] outcomes[i]@,
            begins,
        ) by {
            assert forall|j: int| 0 <= j < 8 implies visitor::all_fit(
                #[trigger] outcomes[i]@[j].ranges@,
                begins,
            ) by {}
        }
    }
}

/// Whether the text is at hand is what the file says in which the function begins.
pub proof fn text_is_at_hand_if_the_file_says_so(files: Seq<crate::source::FileModel>, pos: u32)
    ensures
        visitor::source_at(files, pos) <==> files[crate::source::file_at(files, pos)].has_source,
{
}

/// The place that an operand reads, by moving or by copying it.
pub open spec fn source_of(operand: Operand) -> Option<PlaceModel> {
    match operand {
        Operand::Move(place) => Some(place@),
        Operand::Copy(place) => Some(place@),
        Operand::Constant => None,
    }
}

/// The places that a call reads, one for each argument, and the one that it writes.
pub open spec fn call_sources(args: Seq<Operand>, destination: Option<Place>) -> Seq<
    Option<PlaceModel>,
> {
    args.map_values(|arg: Operand| source_of(arg)).push(
        match destination {
            Some(place) => Some(place@),
            None => None,
        },
    )
}

/// The arguments of a function.
pub open spec fn argument_sources(count: nat) -> Seq<Option<PlaceModel>> {
    Seq::new(count, |i: int| Some(PlaceModel::whole((i + 1) as usize)))
}

/// The pointers inside a place, if there is one.
pub open spec fn inside(body: EvalBody, source: Option<PlaceModel>) -> Seq<Pointer> {
    match source {
        Some(place) => body.pointers@[body.places.index_of(place) as int]@,
        None => Seq::empty(),
    }
}

/// Whether pointer `i` inside source `s` and pointer `j` inside source `t`, not one
/// and the same, both allow writing and are of one type.
pub open spec fn alike(
    body: EvalBody,
    sources: Seq<Option<PlaceModel>>,
    s: int,
    i: int,
    t: int,
    j: int,
) -> bool {
    &&& 0 <= s < sources.len()
    &&& 0 <= t < sources.len()
    &&& 0 <= i < inside(body, sources[s]).len()
    &&& 0 <= j < inside(body, sources[t]).len()
    &&& s != t || i != j
    &&& inside(body, sources[s])[i].mutability == Mutability::Mut
    &&& inside(body, sources[t])[j].mutability == Mutability::Mut
    &&& body.types@[body.places.index_of(inside(body, sources[s])[i].place@) as int]
        == body.types@[body.places.index_of(inside(body, sources[t])[j].place@) as int]
}

/// A call hands on a shared pointer if and only if there is one inside a place that
/// one of its arguments reads; what is inside its destination does not count. No
/// other terminator hands anything on.
pub proof fn shared_pointers_count_in_arguments(
    body: EvalBody,
    args: Vec<Operand>,
    destination: Option<Place>,
    discr: Operand,
)
    ensures
        body.hands_shared(Terminator::Call { args, destination }) <==> exists|k: int, i: int|
            #![trigger inside(body, source_of(args@[k]))[i]]
            0 <= k < args@.len() && 0 <= i < inside(body, source_of(args@[k])).len() && inside(
                body,
                source_of(args@[k]),
            )[i].mutability == Mutability::Not,
        !body.hands_shared(Terminator::SwitchInt { discr }),
        !body.hands_shared(Terminator::Other),
        !body.hands_same_type(Terminator::SwitchInt { discr }),
        !body.hands_same_type(Terminator::Other),
{
    let sources = args@.map_values(|arg: Operand| source_of(arg));
    let pointers = body.pointers_read(args@);
    lemma_read(body, args@);
    if body::any_shared(pointers) {
        let p = choose|p: int|
            0 <= p < pointers.len() && (#[trigger] pointers[p]).mutability == Mutability::Not;
        let (s, i) = lemma_where(body, sources, p);
        assert(inside(body, source_of(args@[s]))[i].mutability == Mutability::Not);
    }
    if exists|k: int, i: int|
        #![trigger inside(body, source_of(args@[k]))[i]]
        0 <= k < args@.len() && 0 <= i < inside(body, source_of(args@[k])).len() && inside(
            body,
            source_of(args@[k]),
        )[i].mutability == Mutability::Not {
        let (k, i) = choose|k: int, i: int|
            #![trigger inside(body, source_of(args@[k]))[i]]
            0 <= k < args@.len() && 0 <= i < inside(body, source_of(args@[k])).len() && inside(
                body,
                source_of(args@[k]),
            )[i].mutability == Mutability::Not;
        lemma_there(body, sources, k, i);
        assert(pointers[offset(body, sources, k) + i].mutability == Mutability::Not);
    }
}

/// A call is said to hand on pointers of one type if and only if two pointers that
/// allow writing and are of one type are inside the places that its arguments read
/// and that it writes to: in two of them or in one.
pub proof fn pointers_of_one_type_count_in_calls(
    body: EvalBody,
    args: Vec<Operand>,
    destination: Option<Place>,
)
    ensures
        body.hands_same_type(Terminator::Call { args, destination }) <==> exists|
            s: int,
            i: int,
            t: int,
            j: int,
        | alike(body, call_sources(args@, destination), s, i, t, j),
{
    let sources = call_sources(args@, destination);
    lemma_read(body, args@);
    assert(sources.drop_last() =~= args@.map_values(|arg: Operand| source_of(arg)));
    assert(listed(body, sources) =~= body.pointers_read(args@) + body.pointers_written(
        destination,
    ));
    lemma_alike(body, sources);
}

/// A function is said to take pointers of one type if and only if two pointers that
/// allow writing and are of one type are inside its arguments: in two of them or in
/// one.
pub proof fn pointers_of_one_type_count_in_arguments(body: EvalBody)
    ensures
        body.takes_same_type() <==> exists|s: int, i: int, t: int, j: int|
            alike(body, argument_sources(body.arg_count as nat), s, i, t, j),
{
    lemma_taken(body, body.arg_count as nat);
    lemma_alike(body, argument_sources(body.arg_count as nat));
}

/// A plan tells of a body whether one of its blocks ends in a call that hands on a
/// shared pointer, whether one ends in a call that hands on pointers of one type, and
/// whether the function takes pointers of one type, and tells them apart.
pub proof fn plan_tells_of_every_block(plan: Plan, body: EvalBody, b: int)
    requires
        plan.tells_of(body),
    ensures
        0 <= b < body.terminators@.len() && body.hands_shared(body.terminators@[b])
            ==> plan.has_immut_ptr_in_call,
        0 <= b < body.terminators@.len() && body.hands_same_type(body.terminators@[b])
            ==> plan.has_same_type_ptrs_in_call,
        plan.has_immut_ptr_in_call ==> exists|k: int|
            0 <= k < body.terminators@.len() && body.hands_shared(#[trigger] body.terminators@[k]),
        plan.has_same_type_ptrs_in_call ==> exists|k: int|
            0 <= k < body.terminators@.len() && body.hands_same_type(
                #[trigger] body.terminators@[k],
            ),
        plan.has_same_type_ptrs_in_input <==> body.takes_same_type(),
{
}

/// The pointers inside some sources, one source after the other.
spec fn listed(body: EvalBody, sources: Seq<Option<PlaceModel>>) -> Seq<Pointer>
    decreases sources.len(),
{
    if sources.len() == 0 {
        Seq::empty()
    } else {
        listed(body, sources.drop_last()) + inside(body, sources.last())
    }
}

/// How many pointers come before those of a source.
spec fn offset(body: EvalBody, sources: Seq<Option<PlaceModel>>, s: int) -> int {
    listed(body, sources.take(s)).len() as int
}

proof fn lemma_read(body: EvalBody, args: Seq<Operand>)
    ensures
        body.pointers_read(args) == listed(body, args.map_values(|arg: Operand| source_of(arg))),
    decreases args.len(),
{
    let sources = args.map_values(|arg: Operand| source_of(arg));
    if args.len() > 0 {
        lemma_read(body, args.drop_last());
        assert(sources.drop_last() =~= args.drop_last().map_values(
            |arg: Operand| source_of(arg),
        ));
        assert(sources.last() == source_of(args.last()));
        assert(body.pointers_read(args) =~= listed(body, sources));
    }
}

proof fn lemma_taken(body: EvalBody, count: nat)
    ensures
        body.pointers_taken(count) == listed(body, argument_sources(count)),
    decreases count,
{
    if count > 0 {
        let sources = argument_sources(count);
        lemma_taken(body, (count - 1) as nat);
        assert(sources.drop_last() =~= argument_sources((count - 1) as nat));
        assert(sources.last() == Some(PlaceModel::whole(count as usize)));
        assert(body.pointers_taken(count) =~= listed(body, sources));
    }
}

proof fn lemma_there(body: EvalBody, sources: Seq<Option<PlaceModel>>, s: int, i: int)
    requires
        0 <= s < sources.len(),
        0 <= i < inside(body, sources[s]).len(),
    ensures
        0 <= offset(body, sources, s) + i < listed(body, sources).len(),
        listed(body, sources)[offset(body, sources, s) + i] == inside(body, sources[s])[i],
    decreases sources.len(),
{
    let before = sources.drop_last();
    assert(before.take(s) =~= sources.take(s));
    if s < before.len() {
        lemma_there(body, before, s, i);
    } else {
        assert(sources.take(s) =~= before);
    }
}

proof fn lemma_offsets(body: EvalBody, sources: Seq<Option<PlaceModel>>, s: int, t: int)
    requires
        0 <= s < t <= sources.len(),
    ensures
        offset(body, sources, s) + inside(body, sources[s]).len() <= offset(body, sources, t),
    decreases t,
{
    assert(sources.take(t).drop_last() =~= sources.take(t - 1));
    if s < t - 1 {
        lemma_offsets(body, sources, s, t - 1);
    }
}

proof fn lemma_where(body: EvalBody, sources: Seq<Option<PlaceModel>>, p: int) -> (found: (
    int,
    int,
))
    requires
        0 <= p < listed(body, sources).len(),
    ensures
        0 <= found.0 < sources.len(),
        0 <= found.1 < inside(body, sources[found.0]).len(),
        p == offset(body, sources, found.0) + found.1,
        listed(body, sources)[p] == inside(body, sources[found.0])[found.1],
    decreases sources.len(),
{
    let before = sources.drop_last();
    let earlier = listed(body, before);
    if p < earlier.len() {
        let (s, i) = lemma_where(body, before, p);
        assert(before.take(s) =~= sources.take(s));
        (s, i)
    } else {
        assert(sources.take(before.len() as int) =~= before);
        (before.len() as int, p - earlier.len())
    }
}

/// How many pointers before the one at `p` allow writing.
spec fn rank(pointers: Seq<Pointer>, p: int) -> int {
    body::writable(pointers.take(p)).len() as int
}

proof fn lemma_ranked(pointers: Seq<Pointer>, p: int)
    requires
        0 <= p < pointers.len(),
        pointers[p].mutability == Mutability::Mut,
    ensures
        0 <= rank(pointers, p) < body::writable(pointers).len(),
        body::writable(pointers)[rank(pointers, p)] == pointers[p].place@,
    decreases pointers.len(),
{
    let before = pointers.drop_last();
    assert(before.take(p) =~= pointers.take(p));
    if p < before.len() {
        lemma_ranked(before, p);
    } else {
        assert(pointers.take(p) =~= before);
    }
}

proof fn lemma_ranks(pointers: Seq<Pointer>, p: int, q: int)
    requires
        0 <= p < q <= pointers.len(),
        pointers[p].mutability == Mutability::Mut,
    ensures
        rank(pointers, p) < rank(pointers, q),
    decreases q,
{
    assert(pointers.take(q).drop_last() =~= pointers.take(q - 1));
    assert(pointers.take(q).last() == pointers[q - 1]);
    if p < q - 1 {
        lemma_ranks(pointers, p, q - 1);
    }
}

proof fn lemma_of_rank(pointers: Seq<Pointer>, w: int) -> (p: int)
    requires
        0 <= w < body::writable(pointers).len(),
    ensures
        0 <= p < pointers.len(),
        pointers[p].mutability == Mutability::Mut,
        rank(pointers, p) == w,
        body::writable(pointers)[w] == pointers[p].place@,
    decreases pointers.len(),
{
    let before = pointers.drop_last();
    if w < body::writable(before).len() {
        let p = lemma_of_rank(before, w);
        assert(before.take(p) =~= pointers.take(p));
        p
    } else {
        assert(pointers.take(before.len() as int) =~= before);
        before.len() as int
    }
}

proof fn lemma_alike(body: EvalBody, sources: Seq<Option<PlaceModel>>)
    ensures
        body::any_repeated(body.types_of(body::writable(listed(body, sources)))) <==> exists|
            s: int,
            i: int,
            t: int,
            j: int,
        | alike(body, sources, s, i, t, j),
{
    let pointers = listed(body, sources);
    let places = body::writable(pointers);
    let types = body.types_of(places);
    if body::any_repeated(types) {
        let (v, w) = choose|v: int, w: int|
            0 <= v < types.len() && 0 <= w < types.len() && v != w && #[trigger] types[v]
                == #[trigger] types[w];
        let p = lemma_of_rank(pointers, v);
        let q = lemma_of_rank(pointers, w);
        let (s, i) = lemma_where(body, sources, p);
        let (t, j) = lemma_where(body, sources, q);
        assert(alike(body, sources, s, i, t, j));
    }
    if exists|s: int, i: int, t: int, j: int| alike(body, sources, s, i, t, j) {
        let (s, i, t, j) = choose|s: int, i: int, t: int, j: int|
            alike(body, sources, s, i, t, j);
        lemma_there(body, sources, s, i);
        lemma_there(body, sources, t, j);
        let p = offset(body, sources, s) + i;
        let q = offset(body, sources, t) + j;
        if s < t {
            lemma_offsets(body, sources, s, t);
        } else if t < s {
            lemma_offsets(body, sources, t, s);
        }
        assert(p != q);
        lemma_ranked(pointers, p);
        lemma_ranked(pointers, q);
        if p < q {
            lemma_ranks(pointers, p, q);
        } else {
            lemma_ranks(pointers, q, p);
        }
        assert(types[rank(pointers, p)] == types[rank(pointers, q)]);
    }
}

} // verus!
