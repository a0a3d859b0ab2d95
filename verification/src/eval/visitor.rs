//! Slicing on every local of every function of a crate, in every mode.

use crate::config::{
    Config, ContextMode, EvalMode, MutabilityMode, PointerMode, Range, RangeError,
    RangeErrorModel, RangeModel,
};
use crate::eval::body::{EvalBody, EvalBodyVisitor};
use crate::eval::tokens::{count_relevant_tokens, Token};
use crate::source::{
    line_begins, lookup_source_file, position_is_located, read_file, span_resolves, Span,
};
use rand::seq::IteratorRandom;
use vstd::prelude::*;

verus! {

/// How many locals of a function are sliced on at most.
pub const SAMPLE_SIZE: usize = 300;

/// The modes in the order in which they are tried.
pub open spec fn modes() -> Seq<EvalMode> {
    seq![
        mode(MutabilityMode::DistinguishMut, ContextMode::Recurse, PointerMode::Precise),
        mode(MutabilityMode::DistinguishMut, ContextMode::Recurse, PointerMode::Conservative),
        mode(MutabilityMode::DistinguishMut, ContextMode::SigOnly, PointerMode::Precise),
        mode(MutabilityMode::DistinguishMut, ContextMode::SigOnly, PointerMode::Conservative),
        mode(MutabilityMode::IgnoreMut, ContextMode::Recurse, PointerMode::Precise),
        mode(MutabilityMode::IgnoreMut, ContextMode::Recurse, PointerMode::Conservative),
        mode(MutabilityMode::IgnoreMut, ContextMode::SigOnly, PointerMode::Precise),
        mode(MutabilityMode::IgnoreMut, ContextMode::SigOnly, PointerMode::Conservative),
    ]
}

/// The mode made of three settings.
pub open spec fn mode(
    mutability_mode: MutabilityMode,
    context_mode: ContextMode,
    pointer_mode: PointerMode,
) -> EvalMode {
    EvalMode { mutability_mode, context_mode, pointer_mode }
}

/// The modes in the order in which they are tried: each way to treat mutability
/// with each way to treat calls with each way to treat pointers.
pub fn eval_modes() -> (all: Vec<EvalMode>)
    ensures
        all@ == modes(),
{
    let mutability_modes = [MutabilityMode::DistinguishMut, MutabilityMode::IgnoreMut];
    let context_modes = [ContextMode::Recurse, ContextMode::SigOnly];
    let pointer_modes = [PointerMode::Precise, PointerMode::Conservative];
    let mut all: Vec<EvalMode> = Vec::new();
    let mut m: usize = 0;
    while m < 2
        invariant
            m <= 2,
            mutability_modes@ == seq![MutabilityMode::DistinguishMut, MutabilityMode::IgnoreMut],
            context_modes@ == seq![ContextMode::Recurse, ContextMode::SigOnly],
            pointer_modes@ == seq![PointerMode::Precise, PointerMode::Conservative],
            all@ == modes().take(4 * m),
        decreases 2 - m,
    {
        let mut c: usize = 0;
        while c < 2
            invariant
                m < 2,
                c <= 2,
                mutability_modes@ == seq![
                    MutabilityMode::DistinguishMut,
                    MutabilityMode::IgnoreMut,
                ],
                context_modes@ == seq![ContextMode::Recurse, ContextMode::SigOnly],
                pointer_modes@ == seq![PointerMode::Precise, PointerMode::Conservative],
                all@ == modes().take(4 * m + 2 * c),
            decreases 2 - c,
        {
            let mut p: usize = 0;
            while p < 2
                invariant
                    m < 2,
                    c < 2,
                    p <= 2,
                    mutability_modes@ == seq![
                        MutabilityMode::DistinguishMut,
                        MutabilityMode::IgnoreMut,
                    ],
                    context_modes@ == seq![ContextMode::Recurse, ContextMode::SigOnly],
                    pointer_modes@ == seq![PointerMode::Precise, PointerMode::Conservative],
                    all@ == modes().take(4 * m + 2 * c + p),
                decreases 2 - p,
            {
                all.push(
                    EvalMode {
                        mutability_mode: mutability_modes[m],
                        context_mode: context_modes[c],
                        pointer_mode: pointer_modes[p],
                    },
                );
                p = p + 1;
                assert(all@ =~= modes().take(4 * m + 2 * c + p));
            }
            c = c + 1;
        }
        m = m + 1;
    }
    assert(all@ =~= modes());
    all
}

/// The settings for slicing in a mode; the others are the default ones.
pub fn mode_config(eval_mode: EvalMode) -> (config: Config)
    ensures
        config.eval_mode == eval_mode,
        config.range@ == (RangeModel {
            start_line: 0,
            start_col: 0,
            end_line: 0,
            end_col: 0,
            filename: Seq::empty(),
        }),
        !config.debug,
        config.local is None,
{
    let default = Config::default();
    Config { eval_mode, range: default.range, debug: default.debug, local: default.local }
}

/// Whether `chosen` are `amount` of the numbers below `count`, or all of them, in
/// ascending order, if they are no more than that.
pub open spec fn is_sample(chosen: Seq<usize>, count: usize, amount: usize) -> bool {
    &&& chosen.no_duplicates()
    &&& forall|i: int| 0 <= i < chosen.len() ==> #[trigger] chosen[i] < count
    &&& count > amount ==> chosen.len() == amount
    &&& count <= amount ==> chosen == Seq::new(count as nat, |i: int| i as usize)
}

/// `IteratorRandom::choose_multiple` chooses from an iterator, at random, as many
/// items as it is asked for. It keeps the items of a shorter iterator, in order.
/// No item comes twice. Which ones come, and in which order, is left to chance.
#[verifier::external_body]
fn choose_multiple(count: usize, amount: usize) -> (chosen: Vec<usize>)
    requires
        amount <= 0xffff,
    ensures
        is_sample(chosen@, count, amount),
{
    (0..count).choose_multiple(&mut rand::thread_rng(), amount)
}

/// What to slice a function on, and what was found out about its body.
#[derive(Clone, Debug, PartialEq, Eq)]
pub struct Plan {
    pub locals: Vec<usize>,
    pub has_immut_ptr_in_call: bool,
    pub has_same_type_ptrs_in_call: bool,
    pub has_same_type_ptrs_in_input: bool,
}

impl Plan {
    /// Whether the plan tells what pointers a body hands to the functions it calls.
    pub open spec fn tells_of(&self, body: EvalBody) -> bool {
        &&& self.has_immut_ptr_in_call == exists|b: int|
            0 <= b < body.terminators@.len() && body.hands_shared(#[trigger] body.terminators@[b])
        &&& self.has_same_type_ptrs_in_call == exists|b: int|
            0 <= b < body.terminators@.len() && body.hands_same_type(
                #[trigger] body.terminators@[b],
            )
        &&& self.has_same_type_ptrs_in_input == body.takes_same_type()
    }

    /// A plan for slicing on a sample of the locals of a body.
    pub fn new(body: &EvalBody) -> (plan: Plan)
        requires
            body.wf(),
        ensures
            is_sample(plan.locals@, body.local_count, SAMPLE_SIZE),
            plan.tells_of(*body),
    {
        let locals = choose_multiple(body.local_count, SAMPLE_SIZE);
        Plan::with_locals(body, locals)
    }

    /// A plan for slicing on some locals of a body.
    pub fn with_locals(body: &EvalBody, locals: Vec<usize>) -> (plan: Plan)
        requires
            body.wf(),
        ensures
            plan.locals@ == locals@,
            plan.tells_of(*body),
    {
        let mut visitor = EvalBodyVisitor::new(body);
        visitor.visit_body();
        Plan {
            locals,
            has_immut_ptr_in_call: visitor.has_immut_ptr_in_call,
            has_same_type_ptrs_in_call: visitor.has_same_type_ptrs_in_call,
            has_same_type_ptrs_in_input: visitor.has_same_type_ptrs_in_input,
        }
    }
}

/// What slicing on a local in one mode gave.
#[derive(Clone, Debug, PartialEq, Eq)]
pub struct Outcome {
    pub ranges: Vec<Range>,
    pub num_instructions: usize,
    pub num_relevant_instructions: usize,
    pub reached_library: bool,
    /// How long it took.
    pub nanoseconds: u128,
}

/// What was measured for one local in one mode.
#[derive(Clone, Debug, PartialEq, Eq)]
pub struct EvalResult {
    pub mutability_mode: MutabilityMode,
    pub context_mode: ContextMode,
    pub pointer_mode: PointerMode,
    pub sliced_local: usize,
    pub function_range: Range,
    pub function_path: String,
    pub num_instructions: usize,
    pub num_relevant_instructions: usize,
    pub num_tokens: usize,
    pub num_relevant_tokens: usize,
    pub nanoseconds: u128,
    pub has_immut_ptr_in_call: bool,
    pub has_same_type_ptrs_in_call: bool,
    pub has_same_type_ptrs_in_input: bool,
    pub reached_library: bool,
}

/// The spans of some ranges among lines that begin at `begins`; ranges that end
/// after the last line are left out.
pub open spec fn spans_among(ranges: Seq<Range>, begins: Seq<u32>) -> Seq<Span>
    decreases ranges.len(),
{
    if ranges.len() == 0 {
        Seq::empty()
    } else {
        let earlier = spans_among(ranges.drop_last(), begins);
        match ranges.last().span_among(begins) {
            Some(span) => earlier.push(span),
            None => earlier,
        }
    }
}

/// Whether the ends of each of some ranges can be found among lines that begin at
/// `begins`.
pub open spec fn all_fit(ranges: Seq<Range>, begins: Seq<u32>) -> bool {
    forall|i: int| 0 <= i < ranges.len() ==> (#[trigger] ranges[i]).fits(begins)
}

/// The spans of some ranges among lines that begin at `begins`; ranges that end
/// after the last line are left out.
pub fn slice_spans(ranges: &Vec<Range>, begins: &Vec<u32>) -> (spans: Vec<Span>)
    requires
        all_fit(ranges@, begins@),
    ensures
        spans@ == spans_among(ranges@, begins@),
{
    let mut spans: Vec<Span> = Vec::new();
    let mut i: usize = 0;
    while i < ranges.len()
        invariant
            i <= ranges@.len(),
            all_fit(ranges@, begins@),
            spans@ == spans_among(ranges@.take(i as int), begins@),
        decreases ranges@.len() - i,
    {
        assert(ranges@.take(i + 1).drop_last() =~= ranges@.take(i as int));
        assert(ranges@[i as int].fits(begins@));
        if let Some(span) = ranges[i].to_span_among(begins) {
            spans.push(span);
        }
        i = i + 1;
    }
    assert(ranges@.take(i as int) =~= ranges@);
    spans
}

/// What is known of a function that was sliced.
pub struct FunctionModel {
    pub path: Seq<char>,
    pub range: Result<RangeModel, RangeErrorModel>,
    pub tokens: Seq<Token>,
    pub begins: Seq<u32>,
}

impl EvalResult {
    /// Whether the result tells what slicing on `local` in `eval_mode` gave.
    pub open spec fn tells(
        &self,
        plan: Plan,
        function: FunctionModel,
        local: usize,
        eval_mode: EvalMode,
        outcome: Outcome,
    ) -> bool {
        &&& mode(self.mutability_mode, self.context_mode, self.pointer_mode) == eval_mode
        &&& self.sliced_local == local
        &&& function.range == Ok::<RangeModel, RangeErrorModel>(self.function_range@)
        &&& self.function_path@ == function.path
        &&& self.num_instructions == outcome.num_instructions
        &&& self.num_relevant_instructions == outcome.num_relevant_instructions
        &&& self.num_tokens == function.tokens.len()
        &&& self.num_relevant_tokens == crate::eval::tokens::count_within(
            function.tokens,
            spans_among(outcome.ranges@, function.begins),
        )
        &&& self.nanoseconds == outcome.nanoseconds
        &&& self.has_immut_ptr_in_call == plan.has_immut_ptr_in_call
        &&& self.has_same_type_ptrs_in_call == plan.has_same_type_ptrs_in_call
        &&& self.has_same_type_ptrs_in_input == plan.has_same_type_ptrs_in_input
        &&& self.reached_library == outcome.reached_library
    }
}

/// Whether `results` tell what slicing on `local` gave: one result for each mode,
/// or none if the function has no range.
pub open spec fn local_told(
    results: Seq<EvalResult>,
    plan: Plan,
    function: FunctionModel,
    local: usize,
    outcomes: Seq<Outcome>,
) -> bool {
    match function.range {
        Err(_) => results.len() == 0,
        Ok(_) => {
            &&& results.len() == modes().len()
            &&& forall|j: int|
                #![trigger results[j]]
                0 <= j < results.len() ==> results[j].tells(
                    plan,
                    function,
                    local,
                    modes()[j],
                    outcomes[j],
                )
        },
    }
}

/// Whether there is an outcome for each local of a plan and each mode, and the
/// ranges of each can be found among lines that begin at `begins`.
pub open spec fn outcomes_fit(plan: Plan, outcomes: Seq<Vec<Outcome>>, begins: Seq<u32>) -> bool {
    &&& outcomes.len() == plan.locals@.len()
    &&& forall|i: int|
        0 <= i < outcomes.len() ==> local_outcomes_fit(#[trigger] outcomes[i]@, begins)
}

/// Whether there is an outcome for each mode, and the ranges of each can be found
/// among lines that begin at `begins`.
pub open spec fn local_outcomes_fit(outcomes: Seq<Outcome>, begins: Seq<u32>) -> bool {
    &&& outcomes.len() == modes().len()
    &&& forall|j: int| 0 <= j < outcomes.len() ==> all_fit(#[trigger] outcomes[j].ranges@, begins)
}

/// What slicing on one local gave, mode by mode.
fn evaluate_local(
    plan: &Plan,
    function_path: &String,
    function_range: &Result<Range, RangeError>,
    tokens: &Vec<Token>,
    begins: &Vec<u32>,
    local: usize,
    outcomes: &Vec<Outcome>,
) -> (results: Vec<EvalResult>)
    requires
        local_outcomes_fit(outcomes@, begins@),
    ensures
        local_told(
            results@,
            *plan,
            FunctionModel {
                path: function_path@,
                range: crate::config::result_model(*function_range),
                tokens: tokens@,
                begins: begins@,
            },
            local,
            outcomes@,
        ),
{
    let ghost function = FunctionModel {
        path: function_path@,
        range: crate::config::result_model(*function_range),
        tokens: tokens@,
        begins: begins@,
    };
    let all = eval_modes();
    let mut results: Vec<EvalResult> = Vec::new();
    if let Ok(range) = function_range {
        let mut j: usize = 0;
        while j < all.len()
            invariant
                j <= all@.len(),
                all@ == modes(),
                local_outcomes_fit(outcomes@, begins@),
                function == (FunctionModel {
                    path: function_path@,
                    range: crate::config::result_model(*function_range),
                    tokens: tokens@,
                    begins: begins@,
                }),
                *function_range == Ok::<Range, RangeError>(*range),
                results@.len() == j,
                forall|k: int|
                    #![trigger results@[k]]
                    0 <= k < j ==> results@[k].tells(
                        *plan,
                        function,
                        local,
                        modes()[k],
                        outcomes@[k],
                    ),
            decreases all@.len() - j,
        {
            let outcome = &outcomes[j];
            assert(all_fit(outcomes@[j as int].ranges@, begins@));
            let spans = slice_spans(&outcome.ranges, begins);
            let result = EvalResult {
                mutability_mode: all[j].mutability_mode,
                context_mode: all[j].context_mode,
                pointer_mode: all[j].pointer_mode,
                sliced_local: local,
                function_range: range.copied(),
                function_path: function_path.clone(),
                num_instructions: outcome.num_instructions,
                num_relevant_instructions: outcome.num_relevant_instructions,
                num_tokens: tokens.len(),
                num_relevant_tokens: count_relevant_tokens(tokens, &spans),
                nanoseconds: outcome.nanoseconds,
                has_immut_ptr_in_call: plan.has_immut_ptr_in_call,
                has_same_type_ptrs_in_call: plan.has_same_type_ptrs_in_call,
                has_same_type_ptrs_in_input: plan.has_same_type_ptrs_in_input,
                reached_library: outcome.reached_library,
            };
            assert(result.tells(*plan, function, local, modes()[j as int], outcomes@[j as int]));
            results.push(result);
            j = j + 1;
        }
    }
    results
}

/// What slicing a function on the locals of a plan gave, local by local.
pub fn evaluate(
    plan: &Plan,
    function_path: &String,
    function_range: &Result<Range, RangeError>,
    tokens: &Vec<Token>,
    begins: &Vec<u32>,
    outcomes: &Vec<Vec<Outcome>>,
) -> (results: Vec<Vec<EvalResult>>)
    requires
        outcomes_fit(*plan, outcomes@, begins@),
    ensures
        results@.len() == plan.locals@.len(),
        forall|i: int|
            #![trigger results@[i]]
            0 <= i < results@.len() ==> local_told(
                results@[i]@,
                *plan,
                FunctionModel {
                    path: function_path@,
                    range: crate::config::result_model(*function_range),
                    tokens: tokens@,
                    begins: begins@,
                },
                plan.locals@[i],
                outcomes@[i]@,
            ),
{
    let mut results: Vec<Vec<EvalResult>> = Vec::new();
    let mut i: usize = 0;
    while i < plan.locals.len()
        invariant
            i <= plan.locals@.len(),
            outcomes_fit(*plan, outcomes@, begins@),
            results@.len() == i,
            forall|k: int|
                #![trigger results@[k]]
                0 <= k < i ==> local_told(
                    results@[k]@,
                    *plan,
                    FunctionModel {
                        path: function_path@,
                        range: crate::config::result_model(*function_range),
                        tokens: tokens@,
                        begins: begins@,
                    },
                    plan.locals@[k],
                    outcomes@[k]@,
                ),
        decreases plan.locals@.len() - i,
    {
        assert(local_outcomes_fit(outcomes@[i as int]@, begins@));
        results.push(
            evaluate_local(
                plan,
                function_path,
                function_range,
                tokens,
                begins,
                plan.locals[i],
                &outcomes[i],
            ),
        );
        i = i + 1;
    }
    results
}

/// Whether there is an outcome for each local of a plan and each mode, and the
/// ranges of each can be found among lines that begin at `begins`.
fn outcomes_are_complete(
    plan: &Plan,
    outcomes: &Vec<Vec<Outcome>>,
    begins: &Vec<u32>,
) -> (holds: bool)
    ensures
        holds == outcomes_fit(*plan, outcomes@, begins@),
{
    if outcomes.len() != plan.locals.len() {
        return false;
    }
    let mut i: usize = 0;
    while i < outcomes.len()
        invariant
            i <= outcomes@.len(),
            forall|k: int|
                0 <= k < i ==> local_outcomes_fit(#[trigger] outcomes@[k]@, begins@),
        decreases outcomes@.len() - i,
    {
        if !local_is_complete(&outcomes[i], begins) {
            assert(!local_outcomes_fit(outcomes@[i as int]@, begins@));
            return false;
        }
        i = i + 1;
    }
    true
}

/// Whether there is an outcome for each mode, and the ranges of each can be found
/// among lines that begin at `begins`.
fn local_is_complete(outcomes: &Vec<Outcome>, begins: &Vec<u32>) -> (holds: bool)
    ensures
        holds == local_outcomes_fit(outcomes@, begins@),
{
    if outcomes.len() != eval_modes().len() {
        return false;
    }
    let mut j: usize = 0;
    while j < outcomes.len()
        invariant
            j <= outcomes@.len(),
            forall|k: int|
                0 <= k < j ==> all_fit(#[trigger] outcomes@[k].ranges@, begins@),
        decreases outcomes@.len() - j,
    {
        let ranges = &outcomes[j].ranges;
        let mut k: usize = 0;
        while k < ranges.len()
            invariant
                j < outcomes@.len(),
                ranges@ == outcomes@[j as int].ranges@,
                k <= ranges@.len(),
                forall|n: int| 0 <= n < k ==> (#[trigger] ranges@[n]).fits(begins@),
            decreases ranges@.len() - k,
        {
            if !ranges[k].fits_among(begins) {
                assert(!ranges@[k as int].fits(begins@));
                assert(!all_fit(outcomes@[j as int].ranges@, begins@));
                return false;
            }
            k = k + 1;
        }
        j = j + 1;
    }
    true
}

/// What an item is, as far as functions are concerned.
#[derive(Clone, Copy, Debug, PartialEq, Eq, Structural)]
pub enum ItemKind {
    /// A function, with the number of its body.
    Fn(usize),
    Other,
}

/// An item of a crate.
#[derive(Clone, Copy, Debug, PartialEq, Eq, Structural)]
pub struct Item {
    pub span: Span,
    /// Whether a macro wrote the item.
    pub from_expansion: bool,
    pub kind: ItemKind,
}

/// What an item of an `impl` is, as far as functions are concerned.
#[derive(Clone, Copy, Debug, PartialEq, Eq, Structural)]
pub enum ImplItemKind {
    /// A function, with the number of its body.
    Fn(usize),
    Other,
}

/// An item of an `impl`.
#[derive(Clone, Copy, Debug, PartialEq, Eq, Structural)]
pub struct ImplItem {
    pub span: Span,
    /// Whether a macro wrote the item.
    pub from_expansion: bool,
    pub kind: ImplItemKind,
}

/// An item of a trait.
#[derive(Clone, Copy, Debug, PartialEq, Eq, Structural)]
pub struct TraitItem {
    pub span: Span,
}

/// An item that is declared here and defined elsewhere.
#[derive(Clone, Copy, Debug, PartialEq, Eq, Structural)]
pub struct ForeignItem {
    pub span: Span,
}

/// A function that is to be sliced.
#[derive(Clone, Copy, Debug, PartialEq, Eq, Structural)]
pub struct Task {
    pub body_span: Span,
    pub body_id: usize,
    /// The place of the function in the order of visits, counted from one.
    pub position: usize,
}

/// Slices the functions of a crate, and gathers what was measured.
#[derive(Debug)]
pub struct EvalCrateVisitor {
    /// The position of the next function.
    pub count: usize,
    /// How many functions there are in all.
    pub total: usize,
    pub eval_results: Vec<Vec<EvalResult>>,
}

impl EvalCrateVisitor {
    /// A visitor for a crate with `total` functions.
    pub fn new(total: usize) -> (visitor: EvalCrateVisitor)
        ensures
            visitor.count == 1,
            visitor.total == total,
            visitor.eval_results@ == Seq::<Vec<EvalResult>>::empty(),
    {
        EvalCrateVisitor { count: 1, total, eval_results: Vec::new() }
    }

    /// What becomes of the visitor, and what is to be done, when it meets a function
    /// in a file whose text is at hand or not. A function that a macro wrote or whose
    /// text is not at hand is passed over. Positions start again from zero after the
    /// largest one.
    pub open spec fn meets(
        &self,
        body_span: Span,
        from_expansion: bool,
        body_id: usize,
        has_source: bool,
        after: EvalCrateVisitor,
        task: Option<Task>,
    ) -> bool {
        &&& after.total == self.total
        &&& after.eval_results == self.eval_results
        &&& if from_expansion || !has_source {
            task is None && after.count == self.count
        } else {
            &&& task == Some(Task { body_span, body_id, position: self.count })
            &&& after.count == if self.count == usize::MAX {
                0
            } else {
                self.count + 1
            }
        }
    }

    /// Takes up a function, if it is to be sliced.
    pub fn take_up(
        &mut self,
        body_span: Span,
        from_expansion: bool,
        body_id: usize,
        has_source: bool,
    ) -> (task: Option<Task>)
        ensures
            old(self).meets(
                body_span,
                from_expansion,
                body_id,
                has_source,
                *final(self),
                task,
            ),
    {
        if from_expansion || !has_source {
            return None;
        }
        let position = self.count;
        self.count = self.count.wrapping_add(1);
        Some(Task { body_span, body_id, position })
    }

    /// Takes up a function, if it is to be sliced.
    pub fn analyze(
        &mut self,
        body_span: Span,
        from_expansion: bool,
        body_id: usize,
        source_map: &rustc_span::source_map::SourceMap,
    ) -> (task: Option<Task>)
        requires
            from_expansion || crate::source::locates(
                crate::source::files_of(*source_map),
                body_span.lo,
            ),
        ensures
            old(self).meets(
                body_span,
                from_expansion,
                body_id,
                source_at(crate::source::files_of(*source_map), body_span.lo),
                *final(self),
                task,
            ),
    {
        if from_expansion {
            return None;
        }
        let source_file = lookup_source_file(source_map, body_span.lo);
        let has_source = read_file(&source_file).has_source;
        self.take_up(body_span, from_expansion, body_id, has_source)
    }

    /// Takes up a function, if it is to be sliced, or does nothing where the source
    /// map does not know where it begins.
    pub fn try_analyze(
        &mut self,
        body_span: Span,
        from_expansion: bool,
        body_id: usize,
        source_map: &rustc_span::source_map::SourceMap,
    ) -> (task: Option<Option<Task>>)
        ensures
            task is Some <==> from_expansion || crate::source::locates(
                crate::source::files_of(*source_map),
                body_span.lo,
            ),
            task is None ==> *final(self) == *old(self),
            task matches Some(t) ==> old(self).meets(
                body_span,
                from_expansion,
                body_id,
                source_at(crate::source::files_of(*source_map), body_span.lo),
                *final(self),
                t,
            ),
    {
        if !from_expansion && !position_is_located(source_map, body_span.lo) {
            return None;
        }
        Some(self.analyze(body_span, from_expansion, body_id, source_map))
    }

    /// Takes up a function, if the item is one that is to be sliced.
    pub fn visit_item(
        &mut self,
        item: &Item,
        source_map: &rustc_span::source_map::SourceMap,
    ) -> (task: Option<Task>)
        requires
            item.kind is Fn && !item.from_expansion ==> crate::source::locates(
                crate::source::files_of(*source_map),
                item.span.lo,
            ),
        ensures
            match item.kind {
                ItemKind::Fn(body_id) => old(self).meets(
                    item.span,
                    item.from_expansion,
                    body_id,
                    source_at(crate::source::files_of(*source_map), item.span.lo),
                    *final(self),
                    task,
                ),
                ItemKind::Other => *final(self) == *old(self) && task is None,
            },
    {
        match item.kind {
            ItemKind::Fn(body_id) => self.analyze(
                item.span,
                item.from_expansion,
                body_id,
                source_map,
            ),
            ItemKind::Other => None,
        }
    }

    /// Takes up a function, if the item is one that is to be sliced.
    pub fn visit_impl_item(
        &mut self,
        impl_item: &ImplItem,
        source_map: &rustc_span::source_map::SourceMap,
    ) -> (task: Option<Task>)
        requires
            impl_item.kind is Fn && !impl_item.from_expansion ==> crate::source::locates(
                crate::source::files_of(*source_map),
                impl_item.span.lo,
            ),
        ensures
            match impl_item.kind {
                ImplItemKind::Fn(body_id) => old(self).meets(
                    impl_item.span,
                    impl_item.from_expansion,
                    body_id,
                    source_at(crate::source::files_of(*source_map), impl_item.span.lo),
                    *final(self),
                    task,
                ),
                ImplItemKind::Other => *final(self) == *old(self) && task is None,
            },
    {
        match impl_item.kind {
            ImplItemKind::Fn(body_id) => self.analyze(
                impl_item.span,
                impl_item.from_expansion,
                body_id,
                source_map,
            ),
            ImplItemKind::Other => None,
        }
    }

    /// Takes up a function, if the item is one that is to be sliced, or does nothing
    /// where the source map does not know where it begins.
    pub fn try_visit_item(
        &mut self,
        item: &Item,
        source_map: &rustc_span::source_map::SourceMap,
    ) -> (task: Option<Option<Task>>)
        ensures
            task is Some <==> (item.kind is Fn && !item.from_expansion ==> crate::source::locates(
                crate::source::files_of(*source_map),
                item.span.lo,
            )),
            task is None ==> *final(self) == *old(self),
            task matches Some(t) ==> match item.kind {
                ItemKind::Fn(body_id) => old(self).meets(
                    item.span,
                    item.from_expansion,
                    body_id,
                    source_at(crate::source::files_of(*source_map), item.span.lo),
                    *final(self),
                    t,
                ),
                ItemKind::Other => *final(self) == *old(self) && t is None,
            },
    {
        if let ItemKind::Fn(_) = item.kind {
            if !item.from_expansion && !position_is_located(source_map, item.span.lo) {
                return None;
            }
        }
        Some(self.visit_item(item, source_map))
    }

    /// Takes up a function, if the item is one that is to be sliced, or does nothing
    /// where the source map does not know where it begins.
    pub fn try_visit_impl_item(
        &mut self,
        impl_item: &ImplItem,
        source_map: &rustc_span::source_map::SourceMap,
    ) -> (task: Option<Option<Task>>)
        ensures
            task is Some <==> (impl_item.kind is Fn && !impl_item.from_expansion
                ==> crate::source::locates(
                crate::source::files_of(*source_map),
                impl_item.span.lo,
            )),
            task is None ==> *final(self) == *old(self),
            task matches Some(t) ==> match impl_item.kind {
                ImplItemKind::Fn(body_id) => old(self).meets(
                    impl_item.span,
                    impl_item.from_expansion,
                    body_id,
                    source_at(crate::source::files_of(*source_map), impl_item.span.lo),
                    *final(self),
                    t,
                ),
                ImplItemKind::Other => *final(self) == *old(self) && t is None,
            },
    {
        if let ImplItemKind::Fn(_) = impl_item.kind {
            if !impl_item.from_expansion && !position_is_located(source_map, impl_item.span.lo) {
                return None;
            }
        }
        Some(self.visit_impl_item(impl_item, source_map))
    }

    /// Items of traits are passed over.
    pub fn visit_trait_item(&mut self, _trait_item: &TraitItem)
        ensures
            *final(self) == *old(self),
    {
    }

    /// Items that are defined elsewhere are passed over.
    pub fn visit_foreign_item(&mut self, _foreign_item: &ForeignItem)
        ensures
            *final(self) == *old(self),
    {
    }

    /// Whether `after` has, beyond what this visitor has, what slicing a function
    /// gave.
    pub open spec fn gathers(
        &self,
        plan: Plan,
        function: FunctionModel,
        outcomes: Seq<Vec<Outcome>>,
        after: EvalCrateVisitor,
    ) -> bool {
        let before = self.eval_results@;
        &&& after.count == self.count
        &&& after.total == self.total
        &&& after.eval_results@.len() == before.len() + plan.locals@.len()
        &&& after.eval_results@.take(before.len() as int) == before
        &&& forall|i: int|
            #![trigger plan.locals@[i]]
            0 <= i < plan.locals@.len() ==> local_told(
                after.eval_results@[before.len() + i]@,
                plan,
                function,
                plan.locals@[i],
                outcomes[i]@,
            )
    }

    /// Adds what slicing a function gave.
    pub fn gather(
        &mut self,
        plan: &Plan,
        function_path: &String,
        function_range: &Result<Range, RangeError>,
        tokens: &Vec<Token>,
        begins: &Vec<u32>,
        outcomes: &Vec<Vec<Outcome>>,
    )
        requires
            outcomes_fit(*plan, outcomes@, begins@),
        ensures
            old(self).gathers(
                *plan,
                FunctionModel {
                    path: function_path@,
                    range: crate::config::result_model(*function_range),
                    tokens: tokens@,
                    begins: begins@,
                },
                outcomes@,
                *final(self),
            ),
    {
        let mut results = evaluate(plan, function_path, function_range, tokens, begins, outcomes);
        let ghost new = results@;
        let ghost before = self.eval_results@;
        self.eval_results.append(&mut results);
        proof {
            assert(self.eval_results@.take(before.len() as int) =~= before);
            assert forall|i: int|
                #![trigger plan.locals@[i]]
                0 <= i < plan.locals@.len() implies self.eval_results@[before.len() + i]
                == new[i] by {}
        }
    }

    /// Adds what slicing a function gave.
    pub fn record(
        &mut self,
        task: &Task,
        plan: &Plan,
        function_path: &String,
        tokens: &Vec<Token>,
        outcomes: &Vec<Vec<Outcome>>,
        source_map: &rustc_span::source_map::SourceMap,
    )
        requires
            recordable(
                crate::source::files_of(*source_map),
                task.body_span,
                *plan,
                outcomes@,
            ),
        ensures
            old(self).gathers(
                *plan,
                function_model(
                    crate::source::files_of(*source_map),
                    task.body_span,
                    function_path@,
                    tokens@,
                ),
                outcomes@,
                *final(self),
            ),
    {
        let source_file = lookup_source_file(source_map, task.body_span.lo);
        let begins = line_begins(&source_file);
        let function_range = Range::from_span(task.body_span, source_map);
        self.gather(plan, function_path, &function_range, tokens, &begins, outcomes);
    }

    /// Adds what slicing a function gave, or does nothing where an outcome is missing
    /// or the source map does not know where the function or a range of an outcome
    /// stands. Says whether it was added.
    pub fn try_record(
        &mut self,
        task: &Task,
        plan: &Plan,
        function_path: &String,
        tokens: &Vec<Token>,
        outcomes: &Vec<Vec<Outcome>>,
        source_map: &rustc_span::source_map::SourceMap,
    ) -> (added: bool)
        ensures
            added == recordable(
                crate::source::files_of(*source_map),
                task.body_span,
                *plan,
                outcomes@,
            ),
            !added ==> *final(self) == *old(self),
            added ==> old(self).gathers(
                *plan,
                function_model(
                    crate::source::files_of(*source_map),
                    task.body_span,
                    function_path@,
                    tokens@,
                ),
                outcomes@,
                *final(self),
            ),
    {
        if !span_resolves(source_map, task.body_span) {
            return false;
        }
        let source_file = lookup_source_file(source_map, task.body_span.lo);
        let begins = line_begins(&source_file);
        if !outcomes_are_complete(plan, outcomes, &begins) {
            return false;
        }
        self.record(task, plan, function_path, tokens, outcomes, source_map);
        true
    }
}

/// Whether the text of the file that `pos` is in is at hand.
pub open spec fn source_at(files: Seq<crate::source::FileModel>, pos: u32) -> bool {
    files[crate::source::file_at(files, pos)].has_source
}

/// Whether what slicing a function gave can be told.
pub open spec fn recordable(
    files: Seq<crate::source::FileModel>,
    body_span: Span,
    plan: Plan,
    outcomes: Seq<Vec<Outcome>>,
) -> bool {
    &&& crate::source::resolves(files, body_span)
    &&& outcomes_fit(
        plan,
        outcomes,
        files[crate::source::file_at(files, body_span.lo)].line_begins(),
    )
}

/// What files and tokens tell of a function.
pub open spec fn function_model(
    files: Seq<crate::source::FileModel>,
    body_span: Span,
    path: Seq<char>,
    tokens: Seq<Token>,
) -> FunctionModel {
    FunctionModel {
        path,
        range: crate::config::range_in_files(files, body_span),
        tokens,
        begins: files[crate::source::file_at(files, body_span.lo)].line_begins(),
    }
}

/// Counts the functions of a crate.
#[derive(Clone, Copy, Debug, PartialEq, Eq, Structural)]
pub struct ItemCounter {
    pub count: usize,
}

impl ItemCounter {
    /// Counts the item if it is a function.
    pub fn visit_item(&mut self, item: &Item)
        requires
            item.kind is Fn ==> old(self).count < usize::MAX,
        ensures
            final(self).count == old(self).count + if item.kind is Fn {
                1int
            } else {
                0int
            },
    {
        match item.kind {
            ItemKind::Fn(_) => {
                self.count = self.count + 1;
            },
            ItemKind::Other => {},
        }
    }

    /// Counts the item if it is a function.
    pub fn visit_impl_item(&mut self, impl_item: &ImplItem)
        requires
            impl_item.kind is Fn ==> old(self).count < usize::MAX,
        ensures
            final(self).count == old(self).count + if impl_item.kind is Fn {
                1int
            } else {
                0int
            },
    {
        match impl_item.kind {
            ImplItemKind::Fn(_) => {
                self.count = self.count + 1;
            },
            ImplItemKind::Other => {},
        }
    }

    /// Items of traits are not counted.
    pub fn visit_trait_item(&mut self, _trait_item: &TraitItem)
        ensures
            *final(self) == *old(self),
    {
    }

    /// Items that are defined elsewhere are not counted.
    pub fn visit_foreign_item(&mut self, _foreign_item: &ForeignItem)
        ensures
            *final(self) == *old(self),
    {
    }
}

/// Every mode there is is tried, and none is tried twice.
pub proof fn each_mode_is_tried_once(any: EvalMode)
    ensures
        modes().contains(any),
        modes().no_duplicates(),
{
    let m: int = if any.mutability_mode == MutabilityMode::DistinguishMut {
        0
    } else {
        4
    };
    let c: int = if any.context_mode == ContextMode::Recurse {
        0
    } else {
        2
    };
    let p: int = if any.pointer_mode == PointerMode::Precise {
        0
    } else {
        1
    };
    assert(modes()[m + c + p] == any);
}

/// A slice never takes in more tokens than there are.
pub proof fn relevant_tokens_are_tokens(
    result: EvalResult,
    plan: Plan,
    function: FunctionModel,
    local: usize,
    eval_mode: EvalMode,
    outcome: Outcome,
)
    requires
        result.tells(plan, function, local, eval_mode, outcome),
    ensures
        result.num_relevant_tokens <= result.num_tokens,
{
    let spans = spans_among(outcome.ranges@, function.begins);
    crate::eval::tokens::more_spans_take_in_more(function.tokens, spans, spans);
}

} // verus!
