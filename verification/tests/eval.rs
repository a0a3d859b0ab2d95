use rust_slicer::config::{
    Config, ContextMode, EvalMode, MutabilityMode, PointerMode, Range, RangeError,
};
use rust_slicer::eval::body::{EvalBody, EvalBodyVisitor};
use rust_slicer::eval::tokens::{
    count_relevant_tokens, flatten_stream, Token, TokenStream, TokenTree,
};
use rust_slicer::eval::visitor::{
    eval_modes, evaluate, mode_config, slice_spans, EvalCrateVisitor, ForeignItem, ImplItem,
    ImplItemKind, Item, ItemCounter, ItemKind, Outcome, Plan, Task, TraitItem, SAMPLE_SIZE,
};
use rust_slicer::mir::{Mutability, Operand, Place, PlaceIndices, Pointer, Terminator};
use rust_slicer::source::{line_begins, read_files, Span};
use rustc_span::source_map::{FilePathMapping, SourceMap};
use rustc_span::{
    BytePos, FileName, RealFileName, SourceFileHash, SourceFileHashAlgorithm,
};
use std::collections::HashSet;
use std::path::PathBuf;

// Local 1 holds a unique pointer and local 2 another, of one type; local 3 holds
// a shared pointer, and local 4 a unique pointer of another type.
fn body(terminators: Vec<Terminator>, arg_count: usize) -> EvalBody {
    let mut places = PlaceIndices::new();
    for local in 0..5 {
        places.add(Place::whole(local));
    }
    let pointer = |local: usize, mutability: Mutability| Pointer {
        place: Place::whole(local),
        mutability,
    };
    EvalBody {
        places,
        types: vec![0, 1, 1, 2, 3],
        pointers: vec![
            vec![],
            vec![pointer(1, Mutability::Mut)],
            vec![pointer(2, Mutability::Mut)],
            vec![pointer(3, Mutability::Not)],
            vec![pointer(4, Mutability::Mut)],
        ],
        local_count: 5,
        arg_count,
        terminators,
    }
}

fn call(args: &[usize], destination: Option<usize>) -> Terminator {
    Terminator::Call {
        args: args.iter().map(|local| Operand::Move(Place::whole(*local))).collect(),
        destination: destination.map(Place::whole),
    }
}

fn flags(body: &EvalBody) -> (bool, bool, bool) {
    let mut visitor = EvalBodyVisitor::new(body);
    visitor.visit_body();
    (
        visitor.has_immut_ptr_in_call,
        visitor.has_same_type_ptrs_in_call,
        visitor.has_same_type_ptrs_in_input,
    )
}

#[test]
fn body_without_calls_hands_nothing_on() {
    assert_eq!(flags(&body(vec![Terminator::Other], 0)), (false, false, false));
    let switch = Terminator::SwitchInt { discr: Operand::Copy(Place::whole(3)) };
    assert_eq!(flags(&body(vec![switch], 1)), (false, false, false));
}

#[test]
fn shared_pointer_in_a_call() {
    assert_eq!(flags(&body(vec![call(&[4, 3], None)], 0)), (true, false, false));
    // What the call gives back does not count here.
    assert_eq!(flags(&body(vec![call(&[4], Some(3))], 0)), (false, false, false));
}

#[test]
fn unique_pointers_of_one_type_in_a_call() {
    assert_eq!(flags(&body(vec![call(&[1, 2], None)], 0)), (false, true, false));
    assert_eq!(flags(&body(vec![call(&[2, 1], None)], 0)), (false, true, false));
    assert_eq!(flags(&body(vec![call(&[1], Some(2))], 0)), (false, true, false));
    assert_eq!(flags(&body(vec![call(&[1, 4], None)], 0)), (false, false, false));
    // The same place twice is two pointers.
    assert_eq!(flags(&body(vec![call(&[4, 4], None)], 0)), (false, true, false));
    // Shared pointers do not count here.
    assert_eq!(flags(&body(vec![call(&[3, 3], None)], 0)), (true, false, false));
    let constants =
        Terminator::Call { args: vec![Operand::Constant, Operand::Constant], destination: None };
    assert_eq!(flags(&body(vec![constants], 0)), (false, false, false));
}

#[test]
fn unique_pointers_of_one_type_among_the_arguments() {
    assert_eq!(flags(&body(vec![], 1)), (false, false, false));
    assert_eq!(flags(&body(vec![], 2)), (false, false, true));
    assert_eq!(flags(&body(vec![], 4)), (false, false, true));
}

#[test]
fn every_block_counts() {
    let all = vec![Terminator::Other, call(&[3], None), call(&[1, 2], None), Terminator::Other];
    assert_eq!(flags(&body(all, 0)), (true, true, false));
}

#[test]
fn bodies_that_do_not_fit_are_noticed() {
    assert!(body(vec![call(&[1, 2], Some(0))], 4).tables_fit());
    assert!(!body(vec![call(&[9], None)], 0).tables_fit());
    assert!(!body(vec![call(&[1], Some(9))], 0).tables_fit());
    assert!(!body(vec![], 5).tables_fit());
    let mut few = body(vec![], 0);
    few.types.pop();
    assert!(!few.tables_fit());
    let mut far = body(vec![], 0);
    far.pointers[0].push(Pointer { place: Place::whole(9), mutability: Mutability::Mut });
    assert!(!far.tables_fit());
}

#[test]
fn types_of_places() {
    let body = body(vec![], 0);
    let visitor = EvalBodyVisitor::new(&body);
    assert_eq!(visitor.place_ty(&Place::whole(4)), 3);
    let (one, two, four) = (Place::whole(1), Place::whole(2), Place::whole(4));
    assert!(visitor.any_same_type_ptrs(&vec![&one, &four, &two]));
    assert!(visitor.any_same_type_ptrs(&vec![&two, &one, &four]));
    assert!(!visitor.any_same_type_ptrs(&vec![&one, &four]));
    assert!(!visitor.any_same_type_ptrs(&vec![]));
}

fn token(lo: u32, hi: u32) -> Token {
    Token { span: Span { lo, hi } }
}

fn leaf(lo: u32, hi: u32) -> TokenTree {
    TokenTree::Token(token(lo, hi))
}

fn group(trees: Vec<TokenTree>) -> TokenTree {
    TokenTree::Delimited(TokenStream { trees })
}

#[test]
fn tokens_of_a_stream_in_order() {
    let stream = TokenStream {
        trees: vec![
            leaf(0, 2),
            group(vec![leaf(4, 5), group(vec![]), group(vec![leaf(7, 8)]), leaf(9, 10)]),
            leaf(12, 13),
        ],
    };
    assert_eq!(
        flatten_stream(stream),
        vec![token(0, 2), token(4, 5), token(7, 8), token(9, 10), token(12, 13)]
    );
    assert_eq!(flatten_stream(TokenStream { trees: vec![] }), vec![]);
}

#[test]
fn tokens_of_two_streams_follow_each_other() {
    let first = || vec![leaf(0, 1), group(vec![leaf(2, 3)])];
    let second = || vec![group(vec![leaf(4, 5)]), leaf(6, 7)];
    let mut both = first();
    both.extend(second());
    let mut apart = flatten_stream(TokenStream { trees: first() });
    apart.extend(flatten_stream(TokenStream { trees: second() }));
    assert_eq!(flatten_stream(TokenStream { trees: both }), apart);
    let grouped = TokenStream { trees: vec![group(first())] };
    assert_eq!(flatten_stream(grouped), flatten_stream(TokenStream { trees: first() }));
}

#[test]
fn relevant_tokens_are_within_a_span() {
    let tokens = vec![token(0, 2), token(3, 5), token(6, 9), token(9, 10)];
    let within = |spans: Vec<Span>| count_relevant_tokens(&tokens, &spans);
    assert_eq!(within(vec![]), 0);
    assert_eq!(within(vec![Span { lo: 0, hi: 10 }]), 4);
    assert_eq!(within(vec![Span { lo: 1, hi: 8 }]), 1);
    assert_eq!(within(vec![Span { lo: 3, hi: 5 }]), 1);
    // No token is counted twice.
    assert_eq!(within(vec![Span { lo: 3, hi: 5 }, Span { lo: 0, hi: 5 }]), 2);
    assert_eq!(within(vec![Span { lo: 3, hi: 7 }, Span { lo: 7, hi: 9 }]), 1);
}

#[test]
fn each_mode_is_tried_once() {
    let modes = eval_modes();
    assert_eq!(modes.len(), 8);
    assert_eq!(modes.iter().collect::<HashSet<_>>().len(), 8);
    let mode = |mutability_mode, context_mode, pointer_mode| EvalMode {
        mutability_mode,
        context_mode,
        pointer_mode,
    };
    assert_eq!(
        modes[0],
        mode(MutabilityMode::DistinguishMut, ContextMode::Recurse, PointerMode::Precise)
    );
    assert_eq!(
        modes[1],
        mode(MutabilityMode::DistinguishMut, ContextMode::Recurse, PointerMode::Conservative)
    );
    assert_eq!(
        modes[2],
        mode(MutabilityMode::DistinguishMut, ContextMode::SigOnly, PointerMode::Precise)
    );
    assert_eq!(
        modes[7],
        mode(MutabilityMode::IgnoreMut, ContextMode::SigOnly, PointerMode::Conservative)
    );
}

#[test]
fn settings_for_a_mode_are_otherwise_default() {
    for eval_mode in eval_modes() {
        assert_eq!(mode_config(eval_mode), Config { eval_mode, ..Default::default() });
    }
}

#[test]
fn few_locals_are_all_sliced_on() {
    let plan = Plan::new(&body(vec![call(&[1, 2], None)], 2));
    assert_eq!(plan.locals, vec![0, 1, 2, 3, 4]);
    assert!(!plan.has_immut_ptr_in_call);
    assert!(plan.has_same_type_ptrs_in_call);
    assert!(plan.has_same_type_ptrs_in_input);
    let mut all = body(vec![], 0);
    all.local_count = SAMPLE_SIZE;
    assert_eq!(Plan::new(&all).locals, (0..SAMPLE_SIZE).collect::<Vec<_>>());
    all.local_count = 0;
    assert_eq!(Plan::new(&all).locals, Vec::<usize>::new());
}

#[test]
fn many_locals_are_sampled() {
    let mut large = body(vec![], 0);
    large.local_count = 10_000;
    let locals = Plan::new(&large).locals;
    assert_eq!(locals.len(), SAMPLE_SIZE);
    assert_eq!(locals.iter().collect::<HashSet<_>>().len(), SAMPLE_SIZE);
    assert!(locals.iter().all(|local| *local < 10_000));
    assert_ne!(locals, (0..SAMPLE_SIZE).collect::<Vec<_>>());
}

const TEXT: &str = "fn f(a: u32) {\n  g(a);\n}\n";

fn map() -> SourceMap {
    let map = SourceMap::new(FilePathMapping::empty());
    map.new_source_file(
        FileName::Real(RealFileName::LocalPath(PathBuf::from("f.rs"))),
        TEXT.to_owned(),
    );
    map.new_source_file(FileName::Custom("made up".to_owned()), TEXT.to_owned());
    map.new_imported_source_file(
        FileName::Real(RealFileName::LocalPath(PathBuf::from("far.rs"))),
        SourceFileHash::new(SourceFileHashAlgorithm::Md5, TEXT),
        0,
        TEXT.len(),
        vec![BytePos(0), BytePos(15), BytePos(23)],
        vec![],
        vec![],
        vec![],
        BytePos(0),
        BytePos(TEXT.len() as u32),
    );
    map
}

fn start(map: &SourceMap, file: usize) -> u32 {
    map.files()[file].start_pos.0
}

#[test]
fn files_of_the_map_are_read() {
    let map = map();
    let files = read_files(&map);
    assert_eq!(files.len(), 3);
    assert_eq!(files[0].local_name, Some("f.rs".to_owned()));
    assert_eq!(files[1].local_name, None);
    assert_eq!(files[1].shown_name, format!("{:?}", FileName::Custom("made up".to_owned())));
    assert_eq!(files[0].lines, vec![0, 15, 23]);
    assert_eq!(line_begins(&map.files()[0]), vec![0, 15, 23]);
    assert_eq!((files[0].start, files[0].end), (0, 25));
    assert!(files[1].has_source && !files[2].has_source);
}

#[test]
fn functions_are_taken_up_in_order() {
    let map = map();
    let mut visitor = EvalCrateVisitor::new(2);
    assert_eq!((visitor.count, visitor.total), (1, 2));
    assert!(visitor.eval_results.is_empty());
    let span = Span { lo: 0, hi: 24 };
    let item = Item { span, from_expansion: false, kind: ItemKind::Fn(7) };
    assert_eq!(
        visitor.visit_item(&item, &map),
        Some(Task { body_span: span, body_id: 7, position: 1 })
    );
    let impl_item = ImplItem { span, from_expansion: false, kind: ImplItemKind::Fn(8) };
    assert_eq!(
        visitor.visit_impl_item(&impl_item, &map),
        Some(Task { body_span: span, body_id: 8, position: 2 })
    );
    assert_eq!(visitor.count, 3);
}

#[test]
fn what_is_no_function_is_passed_over() {
    let map = map();
    let mut visitor = EvalCrateVisitor::new(0);
    let span = Span { lo: 0, hi: 24 };
    let item = Item { span, from_expansion: false, kind: ItemKind::Other };
    assert_eq!(visitor.visit_item(&item, &map), None);
    let impl_item = ImplItem { span, from_expansion: false, kind: ImplItemKind::Other };
    assert_eq!(visitor.visit_impl_item(&impl_item, &map), None);
    visitor.visit_trait_item(&TraitItem { span });
    visitor.visit_foreign_item(&ForeignItem { span });
    assert_eq!(visitor.count, 1);
}

#[test]
fn functions_of_macros_and_without_text_are_passed_over() {
    let map = map();
    let mut visitor = EvalCrateVisitor::new(2);
    let here = Span { lo: 0, hi: 24 };
    assert_eq!(visitor.analyze(here, true, 0, &map), None);
    let lo = start(&map, 2);
    assert_eq!(visitor.analyze(Span { lo, hi: lo + 24 }, false, 0, &map), None);
    assert_eq!(visitor.count, 1);
    assert_eq!(visitor.take_up(here, false, 0, false), None);
    assert!(visitor.take_up(here, false, 0, true).is_some());
    assert_eq!(visitor.count, 2);
}

#[test]
fn positions_start_again() {
    let mut visitor = EvalCrateVisitor::new(0);
    visitor.count = usize::MAX;
    let task = visitor.take_up(Span { lo: 0, hi: 0 }, false, 0, true);
    assert_eq!(task.map(|t| t.position), Some(usize::MAX));
    assert_eq!(visitor.count, 0);
}

#[test]
fn functions_outside_the_map_are_noticed() {
    let empty = SourceMap::new(FilePathMapping::empty());
    let mut visitor = EvalCrateVisitor::new(1);
    let span = Span { lo: 0, hi: 24 };
    assert_eq!(visitor.try_analyze(span, false, 0, &empty), None);
    assert_eq!(visitor.try_analyze(span, true, 0, &empty), Some(None));
    let item = Item { span, from_expansion: false, kind: ItemKind::Fn(0) };
    assert_eq!(visitor.try_visit_item(&item, &empty), None);
    assert!(matches!(visitor.try_visit_item(&item, &map()), Some(Some(_))));
    let impl_item = ImplItem { span, from_expansion: false, kind: ImplItemKind::Fn(0) };
    assert_eq!(visitor.try_visit_impl_item(&impl_item, &empty), None);
    assert!(matches!(visitor.try_visit_impl_item(&impl_item, &map()), Some(Some(_))));
    let other = ImplItem { kind: ImplItemKind::Other, ..impl_item };
    assert_eq!(visitor.try_visit_impl_item(&other, &empty), Some(None));
}

// fn f ( a : u32 ) { g ( a ) ; }, without the delimiters.
fn tokens() -> Vec<Token> {
    vec![
        token(0, 2),
        token(3, 4),
        token(5, 6),
        token(6, 7),
        token(8, 11),
        token(17, 18),
        token(19, 20),
        token(21, 22),
    ]
}

fn outcome(ranges: Vec<Range>, nanoseconds: u128) -> Outcome {
    Outcome {
        ranges,
        num_instructions: 10,
        num_relevant_instructions: 4,
        reached_library: nanoseconds % 2 == 1,
        nanoseconds,
    }
}

fn outcomes() -> Vec<Outcome> {
    (0..8)
        .map(|i| {
            let mut ranges = vec![Range::line(1, 2, 7)];
            if i > 0 {
                ranges.push(Range::line(0, 5, 11));
                ranges.push(Range::line(9, 0, 1));
            }
            outcome(ranges, i)
        })
        .collect()
}

#[test]
fn results_tell_what_was_measured() {
    let map = map();
    let mut visitor = EvalCrateVisitor::new(1);
    let body_span = Span { lo: 0, hi: 24 };
    let task = visitor.analyze(body_span, false, 3, &map).unwrap();
    let plan = Plan::with_locals(&body(vec![call(&[3], None)], 0), vec![4, 1]);
    let path = "krate::f".to_owned();
    visitor.record(&task, &plan, &path, &tokens(), &vec![outcomes(), outcomes()], &map);
    assert_eq!(visitor.eval_results.len(), 2);
    for (results, local) in visitor.eval_results.iter().zip([4usize, 1]) {
        assert_eq!(results.len(), 8);
        for (i, (result, mode)) in results.iter().zip(eval_modes()).enumerate() {
            assert_eq!(result.mutability_mode, mode.mutability_mode);
            assert_eq!(result.context_mode, mode.context_mode);
            assert_eq!(result.pointer_mode, mode.pointer_mode);
            assert_eq!(result.sliced_local, local);
            assert_eq!(
                result.function_range,
                Range {
                    start_line: 0,
                    start_col: 0,
                    end_line: 2,
                    end_col: 1,
                    filename: "f.rs".to_owned(),
                }
            );
            assert_eq!(result.function_path, path);
            assert_eq!(result.num_instructions, 10);
            assert_eq!(result.num_relevant_instructions, 4);
            assert_eq!(result.num_tokens, 8);
            assert_eq!(result.num_relevant_tokens, if i == 0 { 3 } else { 6 });
            assert!(result.num_relevant_tokens <= result.num_tokens);
            assert_eq!(result.nanoseconds, i as u128);
            assert!(result.has_immut_ptr_in_call);
            assert!(!result.has_same_type_ptrs_in_call);
            assert!(!result.has_same_type_ptrs_in_input);
            assert_eq!(result.reached_library, i % 2 == 1);
        }
    }
    let again = vec![outcomes(), outcomes()];
    assert!(visitor.try_record(&task, &plan, &path, &tokens(), &again, &map));
    assert_eq!(visitor.eval_results.len(), 4);
}

#[test]
fn function_without_a_range_has_no_results() {
    let map = map();
    let mut visitor = EvalCrateVisitor::new(1);
    let lo = start(&map, 1);
    let body_span = Span { lo, hi: lo + 24 };
    let task = visitor.analyze(body_span, false, 3, &map).unwrap();
    let plan = Plan::with_locals(&body(vec![], 0), vec![4, 1]);
    let path = "krate::f".to_owned();
    visitor.record(&task, &plan, &path, &tokens(), &vec![outcomes(), outcomes()], &map);
    assert_eq!(visitor.eval_results, vec![vec![], vec![]]);
}

#[test]
fn incomplete_outcomes_are_noticed() {
    let map = map();
    let mut visitor = EvalCrateVisitor::new(1);
    let task = visitor.analyze(Span { lo: 0, hi: 24 }, false, 3, &map).unwrap();
    let plan = Plan::with_locals(&body(vec![], 0), vec![4]);
    let path = "krate::f".to_owned();
    assert!(!visitor.try_record(&task, &plan, &path, &tokens(), &vec![], &map));
    let mut few = outcomes();
    few.pop();
    assert!(!visitor.try_record(&task, &plan, &path, &tokens(), &vec![few], &map));
    let mut wrong = outcomes();
    wrong[3].ranges.push(Range {
        start_line: 7,
        start_col: 0,
        end_line: 1,
        end_col: 0,
        filename: String::new(),
    });
    assert!(!visitor.try_record(&task, &plan, &path, &tokens(), &vec![wrong], &map));
    let elsewhere = Task { body_span: Span { lo: 9, hi: 3 }, ..task };
    assert!(!visitor.try_record(&elsewhere, &plan, &path, &tokens(), &vec![outcomes()], &map));
    assert!(visitor.eval_results.is_empty());
}

#[test]
fn evaluation_of_given_lookups() {
    let plan = Plan::with_locals(&body(vec![], 0), vec![2]);
    let begins = vec![0, 15, 23];
    let path = "f".to_owned();
    let range = Ok(Range::line(0, 0, 1));
    let results = evaluate(&plan, &path, &range, &tokens(), &begins, &vec![outcomes()]);
    assert_eq!(results.len(), 1);
    assert_eq!(results[0][0].num_relevant_tokens, 3);
    assert_eq!(results[0][7].function_range, Range::line(0, 0, 1));
    for error in [
        RangeError::UnsupportedFile("elsewhere".to_owned()),
        RangeError::NoLines("two files".to_owned()),
    ] {
        assert_eq!(
            evaluate(&plan, &path, &Err(error), &tokens(), &begins, &vec![outcomes()]),
            vec![vec![]]
        );
    }
}

#[test]
fn ranges_after_the_last_line_are_left_out_of_a_slice() {
    let ranges = vec![Range::line(0, 1, 2), Range::line(3, 0, 1), Range::line(2, 0, 1)];
    assert_eq!(
        slice_spans(&ranges, &vec![0, 15, 23]),
        vec![Span { lo: 1, hi: 2 }, Span { lo: 23, hi: 24 }]
    );
}

#[test]
fn functions_are_counted() {
    let span = Span { lo: 0, hi: 1 };
    let mut counter = ItemCounter { count: 0 };
    counter.visit_item(&Item { span, from_expansion: false, kind: ItemKind::Fn(1) });
    counter.visit_item(&Item { span, from_expansion: true, kind: ItemKind::Fn(2) });
    counter.visit_item(&Item { span, from_expansion: false, kind: ItemKind::Other });
    counter.visit_impl_item(&ImplItem { span, from_expansion: false, kind: ImplItemKind::Fn(3) });
    counter.visit_impl_item(&ImplItem { span, from_expansion: false, kind: ImplItemKind::Other });
    counter.visit_trait_item(&TraitItem { span });
    counter.visit_foreign_item(&ForeignItem { span });
    assert_eq!(counter, ItemCounter { count: 3 });
}
