use rust_slicer::config::{
    Config, ContextMode, EvalMode, MutabilityMode, PointerMode, Range, RangeError,
};
use rust_slicer::source::{
    files_resolve, position_is_located, span_resolves, FileTable, LineColumns, Span, MAX_SPAN_LEN,
};
use rustc_span::source_map::{FilePathMapping, SourceMap};
use rustc_span::{
    BytePos, FileName, MultiByteChar, NonNarrowChar, RealFileName, SourceFileHash,
    SourceFileHashAlgorithm,
};
use std::path::PathBuf;

fn map_with(files: Vec<(FileName, &str)>) -> SourceMap {
    let map = SourceMap::new(FilePathMapping::empty());
    for (name, text) in files {
        map.new_source_file(name, text.to_owned());
    }
    map
}

fn local(path: &str) -> FileName {
    FileName::Real(RealFileName::LocalPath(PathBuf::from(path)))
}

fn range(start: (usize, usize), end: (usize, usize), filename: &str) -> Range {
    Range {
        start_line: start.0,
        start_col: start.1,
        end_line: end.0,
        end_col: end.1,
        filename: filename.to_owned(),
    }
}

#[test]
fn line_is_on_one_line_of_no_file() {
    assert_eq!(Range::line(3, 4, 9), range((3, 4), (3, 9), ""));
}

#[test]
fn substr_takes_bytes_of_one_line() {
    let text = "fn main() {\n  let x = 1;\n}\n";
    assert_eq!(Range::line(0, 3, 7).substr(text), "main");
    assert_eq!(Range::line(1, 2, 12).substr(text), "let x = 1;");
    assert_eq!(Range::line(2, 0, 1).substr(text), "}");
}

#[test]
fn substr_knows_the_empty_line_after_the_last_newline() {
    assert_eq!(Range::line(1, 0, 0).substr("a\n"), "");
    assert_eq!(Range::line(0, 0, 0).substr(""), "");
    assert_eq!(Range::line(1, 0, 0).substr("a\n\nb"), "");
    assert_eq!(Range::line(2, 0, 1).substr("a\n\nb"), "b");
}

#[test]
fn substr_keeps_carriage_returns() {
    assert_eq!(Range::line(0, 0, 2).substr("a\r\nb"), "a\r");
}

#[test]
fn substr_counts_the_bytes_of_wide_characters() {
    let text = "x\n\u{e9}t\u{e9} = 1";
    assert_eq!(Range::line(1, 0, 5).substr(text), "\u{e9}t\u{e9}");
    assert_eq!(Range::line(1, 2, 3).substr(text), "t");
    assert_eq!(Range::line(1, 5, 9).substr(text), " = 1");
}

#[test]
fn lines_of_a_text_join_to_it() {
    let text = "one\ntwo\n\nfour\n";
    let mut joined = String::new();
    let lengths = [3, 3, 0, 4, 0];
    for (i, length) in lengths.iter().enumerate() {
        if i > 0 {
            joined.push('\n');
        }
        joined.push_str(&Range::line(i, 0, *length).substr(text));
    }
    assert_eq!(joined, text);
}

fn unsupported(name: &str) -> RangeError {
    RangeError::UnsupportedFile(name.to_owned())
}

#[test]
fn lookup_without_a_local_file_is_an_error() {
    let line = LineColumns { line_index: 1, start_col: 2, end_col: 3 };
    let elsewhere = || Err("elsewhere".to_owned());
    assert_eq!(Range::from_lookup(elsewhere(), Ok(vec![line])), Err(unsupported("elsewhere")));
    assert_eq!(
        Range::from_lookup(elsewhere(), Err("no lines".to_owned())),
        Err(unsupported("elsewhere"))
    );
}

#[test]
fn lookup_without_lines_is_an_error() {
    assert_eq!(
        Range::from_lookup(Ok("a.rs".to_owned()), Err("two files".to_owned())),
        Err(RangeError::NoLines("two files".to_owned()))
    );
}

#[test]
fn errors_are_reported_with_their_reasons() {
    assert_eq!(unsupported("it").message(), "Range::from_span doesn't support it");
    assert_eq!(RangeError::NoLines("two files".to_owned()).message(), "two files");
}

#[test]
fn lookup_of_no_lines_is_at_the_beginning() {
    assert_eq!(
        Range::from_lookup(Ok("a.rs".to_owned()), Ok(vec![])),
        Ok(range((0, 0), (0, 0), "a.rs"))
    );
}

#[test]
fn lookup_takes_the_first_and_the_last_line() {
    let lines = vec![
        LineColumns { line_index: 4, start_col: 7, end_col: 20 },
        LineColumns { line_index: 5, start_col: 0, end_col: 30 },
        LineColumns { line_index: 6, start_col: 0, end_col: 2 },
    ];
    assert_eq!(
        Range::from_lookup(Ok("a.rs".to_owned()), Ok(lines)),
        Ok(range((4, 7), (6, 2), "a.rs"))
    );
}

#[test]
fn span_on_one_line_has_its_columns() {
    let map = map_with(vec![(local("src/a.rs"), "fn main() {\n  let x = 1;\n}\n")]);
    let span = Span { lo: 14, hi: 17 };
    assert!(span_resolves(&map, span));
    assert_eq!(Range::from_span(span, &map), Ok(range((1, 2), (1, 5), "src/a.rs")));
}

#[test]
fn span_over_lines_begins_and_ends_on_them() {
    let map = map_with(vec![(local("src/a.rs"), "fn main() {\n  let x = 1;\n}\n")]);
    let span = Span { lo: 0, hi: 26 };
    assert_eq!(Range::from_span(span, &map), Ok(range((0, 0), (2, 1), "src/a.rs")));
}

#[test]
fn span_in_a_later_file_counts_from_its_beginning() {
    let map = map_with(vec![(local("a.rs"), "aaa\nbbb\n"), (local("b.rs"), "cc\ndd\n")]);
    let file = map.files()[1].clone();
    let start = file.start_pos.0;
    assert_eq!(start, 9);
    let span = Span { lo: start + 3, hi: start + 5 };
    assert_eq!(Range::from_span(span, &map), Ok(range((1, 0), (1, 2), "b.rs")));
}

#[test]
fn columns_count_characters() {
    let map = map_with(vec![(local("a.rs"), "\u{e9}\u{e9} = 1\n")]);
    let span = Span { lo: 4, hi: 8 };
    assert_eq!(Range::from_span(span, &map), Ok(range((0, 2), (0, 6), "a.rs")));
}

#[test]
fn span_outside_local_files_is_an_error() {
    let name = FileName::Custom("quoted".to_owned());
    let shown = format!("{:?}", name);
    let map = map_with(vec![(name, "fn main() {}\n")]);
    let error = Range::from_span(Span { lo: 0, hi: 2 }, &map).unwrap_err();
    assert_eq!(error, unsupported(&shown));
    assert_eq!(error.message(), "Range::from_span doesn't support Custom(\"quoted\")");
}

#[test]
fn span_in_a_renamed_file_is_an_error() {
    let renamed = FileName::Real(RealFileName::Remapped {
        local_path: Some(PathBuf::from("a.rs")),
        virtual_name: PathBuf::from("/src/a.rs"),
    });
    let shown = format!("{:?}", renamed);
    let map = map_with(vec![(renamed, "fn main() {}\n")]);
    assert_eq!(Range::from_span(Span { lo: 0, hi: 2 }, &map), Err(unsupported(&shown)));
}

#[test]
fn span_over_two_files_is_an_error() {
    let map = map_with(vec![(local("a.rs"), "aaa\n"), (local("b.rs"), "bbb\n")]);
    let start = map.files()[1].start_pos.0;
    let span = Span { lo: 1, hi: start + 1 };
    let error = Range::from_span(span, &map).unwrap_err();
    let reason = map
        .span_to_lines(rustc_span::Span::new(BytePos(span.lo), BytePos(span.hi)))
        .map(|_| ())
        .unwrap_err();
    assert_eq!(error, RangeError::NoLines(format!("{:?}", reason)));
    assert_eq!(error.message(), format!("{:?}", reason));
    assert!(error.message().contains("a.rs") && error.message().contains("b.rs"));
}

#[test]
fn empty_span_at_zero_is_at_the_beginning() {
    let map = map_with(vec![(local("a.rs"), "aaa\n")]);
    assert_eq!(Range::from_span(Span { lo: 0, hi: 0 }, &map), Ok(range((0, 0), (0, 0), "a.rs")));
}

#[test]
fn span_before_all_files_is_not_resolved() {
    let empty = SourceMap::new(FilePathMapping::empty());
    let span = Span { lo: 0, hi: 1 };
    assert!(!span_resolves(&empty, span));
    assert!(!position_is_located(&empty, 0));
    assert_eq!(Range::try_from_span(span, &empty), None);
}

#[test]
fn span_inside_a_character_is_not_resolved() {
    let map = map_with(vec![(local("a.rs"), "\u{e9}\n")]);
    assert_eq!(Range::try_from_span(Span { lo: 0, hi: 1 }, &map), None);
    assert_eq!(
        Range::try_from_span(Span { lo: 0, hi: 2 }, &map),
        Some(Ok(range((0, 0), (0, 1), "a.rs")))
    );
}

#[test]
fn too_long_span_is_not_resolved() {
    let text = "x".repeat(0x1_0010);
    let map = map_with(vec![(local("a.rs"), &text)]);
    assert!(span_resolves(&map, Span { lo: 3, hi: 3 + MAX_SPAN_LEN }));
    assert!(!span_resolves(&map, Span { lo: 3, hi: 4 + MAX_SPAN_LEN }));
    assert_eq!(
        Range::from_span(Span { lo: 3, hi: 3 + MAX_SPAN_LEN }, &map),
        Ok(range((0, 3), (0, 3 + 0xffff), "a.rs"))
    );
}

#[test]
fn files_out_of_order_resolve_nothing() {
    let table = |start: u32| FileTable {
        local_name: None,
        shown_name: String::new(),
        start,
        end: start + 4,
        lines: vec![start],
        wide_chars: vec![],
        has_source: true,
        odd_chars: vec![],
    };
    assert!(files_resolve(&vec![table(0), table(5)], Span { lo: 1, hi: 2 }));
    assert!(!files_resolve(&vec![table(5), table(0)], Span { lo: 6, hi: 7 }));
    assert!(!files_resolve(&vec![table(0)], Span { lo: 2, hi: 1 }));
}

fn import(
    map: &SourceMap,
    name: FileName,
    length: usize,
    lines: Vec<u32>,
    wide: Vec<(u32, u8)>,
    odd: Vec<NonNarrowChar>,
) {
    map.new_imported_source_file(
        name,
        SourceFileHash::new(SourceFileHashAlgorithm::Md5, ""),
        0,
        length,
        lines.into_iter().map(BytePos).collect(),
        wide.into_iter().map(|(pos, bytes)| MultiByteChar { pos: BytePos(pos), bytes }).collect(),
        odd,
        vec![],
        BytePos(0),
        BytePos(length as u32),
    );
}

#[test]
fn file_without_text_resolves_spans_after_a_tab() {
    let map = SourceMap::new(FilePathMapping::empty());
    import(&map, local("dep.rs"), 10, vec![0], vec![], vec![NonNarrowChar::Tab(BytePos(0))]);
    let span = Span { lo: 1, hi: 4 };
    assert!(span_resolves(&map, span));
    assert_eq!(Range::try_from_span(span, &map), Some(Ok(range((0, 1), (0, 4), "dep.rs"))));
    let file = map.files()[0].clone();
    for lo in 0..10 {
        for hi in lo..10 {
            let r = Range::try_from_span(Span { lo, hi }, &map).unwrap().unwrap();
            assert!((r.start_line, r.start_col) <= (r.end_line, r.end_col));
            assert_eq!(r.to_span(&file), Some(Span { lo, hi }));
        }
    }
}

#[test]
fn file_without_text_resolves_spans_among_odd_characters() {
    let map = map_with(vec![(local("a.rs"), "aaa\n")]);
    // Two lines: a character of three bytes that shows two columns wide, an "x", a
    // newline, a tab and a "y".
    import(
        &map,
        local("dep.rs"),
        7,
        vec![0, 5],
        vec![(0, 3)],
        vec![NonNarrowChar::Wide(BytePos(0)), NonNarrowChar::Tab(BytePos(5))],
    );
    let start = map.files()[1].start_pos.0;
    let at = |lo: u32, hi: u32| Range::try_from_span(Span { lo: start + lo, hi: start + hi }, &map);
    assert_eq!(at(0, 4), Some(Ok(range((0, 0), (0, 2), "dep.rs"))));
    assert_eq!(at(3, 6), Some(Ok(range((0, 1), (1, 1), "dep.rs"))));
    assert_eq!(at(6, 7), Some(Ok(range((1, 1), (1, 2), "dep.rs"))));
    assert_eq!(at(1, 4), None);
}

#[test]
fn odd_characters_out_of_order_resolve_nothing() {
    let table = |odd_chars: Vec<u32>| {
        vec![FileTable {
            local_name: None,
            shown_name: String::new(),
            start: 5,
            end: 20,
            lines: vec![5],
            wide_chars: vec![(8, 3)],
            has_source: false,
            odd_chars,
        }]
    };
    let span = Span { lo: 6, hi: 7 };
    assert!(files_resolve(&table(vec![]), span));
    assert!(files_resolve(&table(vec![5, 8, 11]), span));
    assert!(!files_resolve(&table(vec![11, 5]), span));
    assert!(!files_resolve(&table(vec![5, 5]), span));
    assert!(!files_resolve(&table(vec![4]), span));
    assert!(!files_resolve(&table(vec![9]), span));
}

#[test]
fn end_of_a_span_outside_local_files_is_not_looked_at() {
    let text = format!("a\u{e9}{}", "x".repeat(0x1_0010));
    let map = map_with(vec![(FileName::Custom("quoted".to_owned()), &text)]);
    for hi in [2, 5 + MAX_SPAN_LEN] {
        assert_eq!(
            Range::try_from_span(Span { lo: 0, hi }, &map),
            Some(Err(unsupported("Custom(\"quoted\")")))
        );
    }
    assert_eq!(Range::try_from_span(Span { lo: 2, hi: 3 }, &map), None);
}

#[test]
fn range_ends_after_it_begins() {
    let map = map_with(vec![(local("a.rs"), "fn f() {\n    g(1,\n      2)\n}\n")]);
    let end = map.files()[0].end_pos.0;
    for lo in 0..end {
        for hi in lo..end {
            let r = Range::from_span(Span { lo, hi }, &map).unwrap();
            assert!((r.start_line, r.start_col) <= (r.end_line, r.end_col));
        }
    }
}

#[test]
fn span_survives_its_range() {
    let map = map_with(vec![(local("z.rs"), "zzz\n"), (local("a.rs"), "fn f() {\n    g(1)\n}\n")]);
    let file = map.files()[1].clone();
    for lo in file.start_pos.0..file.end_pos.0 {
        for hi in lo..file.end_pos.0 {
            let span = Span { lo, hi };
            let r = Range::from_span(span, &map).unwrap();
            assert_eq!(r.to_span(&file), Some(span));
            assert_eq!(r.try_to_span(&file), Some(Some(span)));
        }
    }
}

#[test]
fn wide_characters_move_the_span_of_a_range() {
    let map = map_with(vec![(local("a.rs"), "\u{e9}\u{e9} = 1\n")]);
    let file = map.files()[0].clone();
    let r = Range::from_span(Span { lo: 4, hi: 8 }, &map).unwrap();
    assert_eq!(r.to_span(&file), Some(Span { lo: 2, hi: 6 }));
}

#[test]
fn range_after_the_last_line_has_no_span() {
    let map = map_with(vec![(local("a.rs"), "one\ntwo\n")]);
    let file = map.files()[0].clone();
    assert_eq!(range((0, 0), (2, 0), "").to_span(&file), None);
    assert_eq!(range((7, 0), (2, 0), "").to_span(&file), None);
    assert_eq!(range((0, 1), (1, 2), "").to_span(&file), Some(Span { lo: 1, hi: 6 }));
}

#[test]
fn range_that_ends_before_it_begins_has_a_span_in_order() {
    let begins = vec![0, 10];
    assert_eq!(range((1, 5), (0, 3), "").to_span_among(&begins), Some(Span { lo: 3, hi: 15 }));
    assert_eq!(range((1, 5), (1, 5), "").to_span_among(&begins), Some(Span { lo: 15, hi: 15 }));
}

#[test]
fn range_with_an_end_that_is_no_position_does_not_fit() {
    let begins = vec![0, u32::MAX - 2];
    assert!(range((1, 0), (1, 2), "").fits_among(&begins));
    assert!(!range((1, 0), (1, 3), "").fits_among(&begins));
    assert!(!range((2, 0), (1, 0), "").fits_among(&begins));
    assert!(range((2, 0), (2, 0), "").fits_among(&begins));
    let map = map_with(vec![(local("a.rs"), "one\n")]);
    let file = map.files()[0].clone();
    assert_eq!(range((1, 0), (0, 0), "").try_to_span(&file), None);
    assert_eq!(range((1, 0), (1, 0), "").try_to_span(&file), Some(None));
}

#[test]
fn columns_are_taken_modulo_the_size_of_positions() {
    let wide: usize = 0x1_0000_0003;
    assert_eq!(
        Range::line(0, wide, 5).to_span_among(&vec![10]),
        Some(Span { lo: 13, hi: 15 })
    );
}

#[test]
fn spans_contain_what_lies_within() {
    let a = Span { lo: 2, hi: 9 };
    let b = Span { lo: 3, hi: 9 };
    let c = Span { lo: 4, hi: 5 };
    assert!(a.contains(a) && a.contains(b) && b.contains(c) && a.contains(c));
    assert!(!b.contains(a) && !c.contains(b));
    assert!(!c.contains(Span { lo: 4, hi: 6 }));
    assert_eq!(Span::new(9, 2), a);
    assert_eq!(Span::new(2, 9), a);
}

#[test]
fn default_settings() {
    let config = Config::default();
    assert_eq!(config.range, Range::line(0, 0, 0));
    assert!(!config.debug);
    assert_eq!(config.local, None);
    assert_eq!(
        config.eval_mode,
        EvalMode {
            mutability_mode: MutabilityMode::DistinguishMut,
            context_mode: ContextMode::SigOnly,
            pointer_mode: PointerMode::Precise,
        }
    );
}

#[test]
fn copied_range_is_the_same() {
    let r = range((1, 2), (3, 4), "a.rs");
    assert_eq!(r.copied(), r);
}
