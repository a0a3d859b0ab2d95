//! Ranges of source text, and the settings of the slicer.

use crate::source::{
    count_lines, line_begin, span_resolves, span_to_filename, span_to_lines, LineColumns, Span,
};
use vstd::prelude::*;

verus! {

/// A range of text in a file, in lines and columns that count from zero.
#[derive(Debug, Clone, Hash, PartialEq, Eq)]
pub struct Range {
    pub start_line: usize,
    pub start_col: usize,
    pub end_line: usize,
    pub end_col: usize,
    pub filename: String,
}

/// What a `Range` denotes.
#[verifier::ext_equal]
pub struct RangeModel {
    pub start_line: int,
    pub start_col: int,
    pub end_line: int,
    pub end_col: int,
    pub filename: Seq<char>,
}

impl View for Range {
    type V = RangeModel;

    open spec fn view(&self) -> RangeModel {
        RangeModel {
            start_line: self.start_line as int,
            start_col: self.start_col as int,
            end_line: self.end_line as int,
            end_col: self.end_col as int,
            filename: self.filename@,
        }
    }
}

/// Why a span has no range.
#[derive(Debug, Clone, PartialEq, Eq)]
pub enum RangeError {
    /// The span begins in something other than a file on this machine, whose name is
    /// shown like this.
    UnsupportedFile(String),
    /// The source map gives no lines for the span, for this reason.
    NoLines(String),
}

/// What a `RangeError` denotes.
#[verifier::ext_equal]
pub enum RangeErrorModel {
    UnsupportedFile(Seq<char>),
    NoLines(Seq<char>),
}

impl View for RangeError {
    type V = RangeErrorModel;

    open spec fn view(&self) -> RangeErrorModel {
        match self {
            RangeError::UnsupportedFile(name) => RangeErrorModel::UnsupportedFile(name@),
            RangeError::NoLines(reason) => RangeErrorModel::NoLines(reason@),
        }
    }
}

impl RangeErrorModel {
    /// What the error is reported as.
    pub open spec fn text(self) -> Seq<char> {
        match self {
            RangeErrorModel::UnsupportedFile(name) => "Range::from_span doesn't support "@ + name,
            RangeErrorModel::NoLines(reason) => reason,
        }
    }
}

impl RangeError {
    /// What the error is reported as.
    pub fn message(&self) -> (text: String)
        ensures
            text@ == self@.text(),
    {
        match self {
            RangeError::UnsupportedFile(name) => {
                let mut text = "Range::from_span doesn't support ".to_owned();
                text.append(name.as_str());
                text
            },
            RangeError::NoLines(reason) => reason.clone(),
        }
    }
}

/// The lines of a text, as their bytes.
pub open spec fn lines_of(bytes: Seq<u8>) -> Seq<Seq<u8>>
    decreases bytes.len(),
{
    if bytes.len() == 0 {
        seq![Seq::empty()]
    } else {
        let before = lines_of(bytes.drop_last());
        if bytes.last() == 10 {
            before.push(Seq::empty())
        } else {
            before.drop_last().push(before.last().push(bytes.last()))
        }
    }
}

/// Lines put together again, with a newline after each but the last.
pub open spec fn joined(lines: Seq<Seq<u8>>) -> Seq<u8>
    decreases lines.len(),
{
    if lines.len() == 0 {
        Seq::empty()
    } else if lines.len() == 1 {
        lines[0]
    } else {
        joined(lines.drop_last()).push(10) + lines.last()
    }
}

/// Whether a character of a line begins or the line ends at byte `col`.
pub open spec fn is_column(line: Seq<u8>, col: int) -> bool {
    col == line.len() || 0 <= col < line.len() && !vstd::utf8::is_continuation_byte(line[col])
}

/// The range of a span, given the name of its file and its lines.
pub open spec fn range_of_lines(filename: Seq<char>, lines: Seq<LineColumns>) -> RangeModel {
    if lines.len() == 0 {
        RangeModel { start_line: 0, start_col: 0, end_line: 0, end_col: 0, filename }
    } else {
        RangeModel {
            start_line: lines.first().line_index as int,
            start_col: lines.first().start_col as int,
            end_line: lines.last().line_index as int,
            end_col: lines.last().end_col as int,
            filename,
        }
    }
}

/// The range of a span that `files` resolve.
pub open spec fn range_in_files(files: Seq<crate::source::FileModel>, span: Span) -> Result<
    RangeModel,
    RangeErrorModel,
> {
    let file = files[crate::source::file_at(files, span.lo)];
    match file.local_name {
        None => Err(RangeErrorModel::UnsupportedFile(file.shown_name)),
        Some(filename) => if crate::source::file_at(files, span.lo) != crate::source::file_at(
            files,
            span.hi,
        ) {
            let end = files[crate::source::file_at(files, span.hi)];
            Err(
                RangeErrorModel::NoLines(
                    crate::source::two_files_text(
                        file.shown_name,
                        file.start,
                        end.shown_name,
                        end.start,
                    ),
                ),
            )
        } else if span.lo == 0 && span.hi == 0 {
            Ok(RangeModel { start_line: 0, start_col: 0, end_line: 0, end_col: 0, filename })
        } else {
            Ok(
                RangeModel {
                    start_line: file.line_index(span.lo),
                    start_col: file.column(span.lo),
                    end_line: file.line_index(span.hi),
                    end_col: file.column(span.hi),
                    filename,
                },
            )
        },
    }
}

/// What a result denotes.
pub open spec fn result_model(result: Result<Range, RangeError>) -> Result<
    RangeModel,
    RangeErrorModel,
> {
    match result {
        Ok(range) => Ok(range@),
        Err(error) => Err(error@),
    }
}

impl Range {
    /// A range on one line of a file without a name.
    pub fn line(line: usize, start: usize, end: usize) -> (range: Range)
        ensures
            range@ == (RangeModel {
                start_line: line as int,
                start_col: start as int,
                end_line: line as int,
                end_col: end as int,
                filename: Seq::empty(),
            }),
    {
        Range {
            start_line: line,
            start_col: start,
            end_line: line,
            end_col: end,
            filename: String::new(),
        }
    }

    /// The same range once more.
    pub fn copied(&self) -> (range: Range)
        ensures
            range@ == self@,
    {
        Range {
            start_line: self.start_line,
            start_col: self.start_col,
            end_line: self.end_line,
            end_col: self.end_col,
            filename: self.filename.clone(),
        }
    }

    /// Whether the range takes up a part of one line of a text.
    pub open spec fn selects_from(&self, s: Seq<char>) -> bool {
        let lines = lines_of(vstd::utf8::encode_utf8(s));
        &&& self.start_line == self.end_line
        &&& self.start_line < lines.len()
        &&& self.start_col <= self.end_col
        &&& is_column(lines[self.start_line as int], self.start_col as int)
        &&& is_column(lines[self.start_line as int], self.end_col as int)
    }

    /// The text of the range, which is on one line of `s`; its columns count bytes.
    pub fn substr(&self, s: &str) -> (text: String)
        requires
            self.selects_from(s@),
        ensures
            vstd::utf8::encode_utf8(text@) == lines_of(
                vstd::utf8::encode_utf8(s@),
            )[self.start_line as int].subrange(self.start_col as int, self.end_col as int),
    {
        let bytes = s.as_bytes();
        let ghost text_bytes = vstd::utf8::encode_utf8(s@);
        let ghost line = lines_of(text_bytes)[self.start_line as int];
        let (begin, end) = line_bounds(bytes, self.start_line);
        proof {
            vstd::utf8::encode_utf8_valid_utf8(s@);
            lemma_column_is_boundary(text_bytes, begin as int, end as int, self.start_col as int);
            lemma_column_is_boundary(text_bytes, begin as int, end as int, self.end_col as int);
        }
        let head = s.split_at(begin + self.end_col).0;
        let ghost head_bytes = vstd::utf8::encode_utf8(head@);
        proof {
            vstd::utf8::encode_utf8_valid_utf8(head@);
            let at = begin + self.start_col;
            if at < head_bytes.len() {
                assert(head_bytes[at] == text_bytes[at]);
                vstd::utf8::is_char_boundary_iff_not_is_continuation_byte(text_bytes, at);
                vstd::utf8::is_char_boundary_iff_not_is_continuation_byte(head_bytes, at);
            } else {
                vstd::utf8::is_char_boundary_start_end_of_seq(head_bytes);
            }
        }
        let text = head.split_at(begin + self.start_col).1;
        assert(vstd::utf8::encode_utf8(text@) =~= line.subrange(
            self.start_col as int,
            self.end_col as int,
        ));
        text.to_owned()
    }

    /// The range of a span, given the name of its file and its lines.
    pub fn from_lines(filename: String, lines: &Vec<LineColumns>) -> (range: Range)
        ensures
            range@ == range_of_lines(filename@, lines@),
    {
        if lines.len() == 0 {
            return Range { start_line: 0, start_col: 0, end_line: 0, end_col: 0, filename };
        }
        let start_line = lines[0];
        let end_line = lines[lines.len() - 1];
        Range {
            start_line: start_line.line_index,
            start_col: start_line.start_col,
            end_line: end_line.line_index,
            end_col: end_line.end_col,
            filename,
        }
    }

    /// The range of a span, given what a source map says of it: the path of its
    /// file, or how the name is shown of what is no file on this machine, and its
    /// lines, or why it has none. The lines are not looked at without a path.
    pub fn from_lookup(
        filename: Result<String, String>,
        lines: Result<Vec<LineColumns>, String>,
    ) -> (range: Result<Range, RangeError>)
        ensures
            result_model(range) == (match (filename, lines) {
                (Err(shown), _) => Err(RangeErrorModel::UnsupportedFile(shown@)),
                (Ok(_), Err(reason)) => Err(RangeErrorModel::NoLines(reason@)),
                (Ok(filename), Ok(lines)) => Ok(range_of_lines(filename@, lines@)),
            }),
    {
        match filename {
            Err(shown) => Err(RangeError::UnsupportedFile(shown)),
            Ok(filename) => match lines {
                Err(reason) => Err(RangeError::NoLines(reason)),
                Ok(lines) => Ok(Range::from_lines(filename, &lines)),
            },
        }
    }

    /// The range of a span that a source map resolves.
    pub fn from_span(span: Span, source_map: &rustc_span::source_map::SourceMap) -> (range: Result<
        Range,
        RangeError,
    >)
        requires
            crate::source::resolves(crate::source::files_of(*source_map), span),
        ensures
            result_model(range) == range_in_files(crate::source::files_of(*source_map), span),
    {
        match span_to_filename(source_map, span) {
            Err(shown) => Err(RangeError::UnsupportedFile(shown)),
            Ok(filename) => Range::from_lookup(Ok(filename), span_to_lines(source_map, span)),
        }
    }

    /// The range of a span, or nothing where the source map does not resolve the
    /// span.
    pub fn try_from_span(span: Span, source_map: &rustc_span::source_map::SourceMap) -> (range:
        Option<Result<Range, RangeError>>)
        ensures
            range is Some <==> crate::source::resolves(crate::source::files_of(*source_map), span),
            range matches Some(r) ==> result_model(r) == range_in_files(
                crate::source::files_of(*source_map),
                span,
            ),
    {
        if span_resolves(source_map, span) {
            Some(Range::from_span(span, source_map))
        } else {
            None
        }
    }

    /// Whether the ends of the range can be found among lines that begin at
    /// `begins`.
    pub open spec fn fits(&self, begins: Seq<u32>) -> bool {
        self.end_line < begins.len() ==> {
            &&& self.start_line < begins.len()
            &&& begins[self.start_line as int] + (self.start_col as u32) <= u32::MAX
            &&& begins[self.end_line as int] + (self.end_col as u32) <= u32::MAX
        }
    }

    /// The span of the range among lines that begin at `begins`.
    pub open spec fn span_among(&self, begins: Seq<u32>) -> Option<Span> {
        if self.end_line >= begins.len() {
            None
        } else {
            let start = begins[self.start_line as int] + (self.start_col as u32);
            let end = begins[self.end_line as int] + (self.end_col as u32);
            if start <= end {
                Some(Span { lo: start as u32, hi: end as u32 })
            } else {
                Some(Span { lo: end as u32, hi: start as u32 })
            }
        }
    }

    /// Whether the ends of the range are positions, its lines beginning at
    /// `start_begin` and `end_begin`.
    fn ends_fit(&self, start_begin: u32, end_begin: u32) -> (holds: bool)
        ensures
            holds == (start_begin + (self.start_col as u32) <= u32::MAX && end_begin
                + (self.end_col as u32) <= u32::MAX),
    {
        start_begin <= u32::MAX - #[verifier::truncate] (self.start_col as u32) && end_begin
            <= u32::MAX - #[verifier::truncate] (self.end_col as u32)
    }

    /// The span of the range, its lines beginning at `start_begin` and `end_begin`.
    fn span_between(&self, start_begin: u32, end_begin: u32) -> (span: Span)
        requires
            start_begin + (self.start_col as u32) <= u32::MAX,
            end_begin + (self.end_col as u32) <= u32::MAX,
        ensures
            ({
                let start = (start_begin + (self.start_col as u32)) as u32;
                let end = (end_begin + (self.end_col as u32)) as u32;
                span == if start <= end {
                    Span { lo: start, hi: end }
                } else {
                    Span { lo: end, hi: start }
                }
            }),
    {
        let start_pos: u32 = start_begin + #[verifier::truncate] (self.start_col as u32);
        let end_pos: u32 = end_begin + #[verifier::truncate] (self.end_col as u32);
        Span::new(start_pos, end_pos)
    }

    /// Whether the ends of the range can be found among lines that begin at
    /// `begins`.
    pub fn fits_among(&self, begins: &Vec<u32>) -> (holds: bool)
        ensures
            holds == self.fits(begins@),
    {
        if self.end_line >= begins.len() {
            return true;
        }
        self.start_line < begins.len() && self.ends_fit(
            begins[self.start_line],
            begins[self.end_line],
        )
    }

    /// The span of the range among lines that begin at `begins`, unless it ends
    /// after the last of them.
    pub fn to_span_among(&self, begins: &Vec<u32>) -> (span: Option<Span>)
        requires
            self.fits(begins@),
        ensures
            span == self.span_among(begins@),
    {
        if self.end_line >= begins.len() {
            return None;
        }
        Some(self.span_between(begins[self.start_line], begins[self.end_line]))
    }

    /// The span of the range in a source file, unless it ends after the file's last
    /// line.
    pub fn to_span(&self, source_file: &rustc_span::SourceFile) -> (span: Option<Span>)
        requires
            self.fits(crate::source::file_of(*source_file).line_begins()),
        ensures
            span == self.span_among(crate::source::file_of(*source_file).line_begins()),
    {
        if self.end_line >= count_lines(source_file) {
            return None;
        }
        let start_begin = line_begin(source_file, self.start_line);
        let end_begin = line_begin(source_file, self.end_line);
        Some(self.span_between(start_begin, end_begin))
    }

    /// The span of the range in a source file, or nothing where the ends of the
    /// range cannot be found in it.
    pub fn try_to_span(&self, source_file: &rustc_span::SourceFile) -> (span: Option<Option<Span>>)
        ensures
            span is Some <==> self.fits(crate::source::file_of(*source_file).line_begins()),
            span matches Some(s) ==> s == self.span_among(
                crate::source::file_of(*source_file).line_begins(),
            ),
    {
        let count = count_lines(source_file);
        if self.end_line < count {
            if self.start_line >= count {
                return None;
            }
            let start_begin = line_begin(source_file, self.start_line);
            let end_begin = line_begin(source_file, self.end_line);
            if !self.ends_fit(start_begin, end_begin) {
                return None;
            }
        }
        Some(self.to_span(source_file))
    }
}

/// A line that has ended stays as it is when the text goes on.
proof fn lemma_lines_grow(bytes: Seq<u8>, more: Seq<u8>, n: int)
    requires
        bytes.is_prefix_of(more),
        0 <= n < lines_of(bytes).len() - 1,
    ensures
        n < lines_of(more).len() - 1,
        lines_of(more)[n] == lines_of(bytes)[n],
    decreases more.len(),
{
    if more.len() > bytes.len() {
        assert(bytes.is_prefix_of(more.drop_last()));
        lemma_lines_grow(bytes, more.drop_last(), n);
    } else {
        assert(bytes =~= more);
    }
}

/// Where line `n` of a text begins and ends, its newline left out.
fn line_bounds(bytes: &[u8], n: usize) -> (bounds: (usize, usize))
    requires
        n < lines_of(bytes@).len(),
    ensures
        bounds.0 <= bounds.1 <= bytes@.len(),
        lines_of(bytes@)[n as int] == bytes@.subrange(bounds.0 as int, bounds.1 as int),
        bounds.1 == bytes@.len() || bytes@[bounds.1 as int] == 10,
{
    let mut current: usize = 0;
    let mut begin: usize = 0;
    let mut i: usize = 0;
    assert(bytes@.take(0) =~= Seq::<u8>::empty());
    assert(bytes@.subrange(0, 0) =~= Seq::<u8>::empty());
    while i < bytes.len()
        invariant
            begin <= i <= bytes@.len(),
            current <= i,
            current <= n,
            n < lines_of(bytes@).len(),
            lines_of(bytes@.take(i as int)).len() == current + 1,
            lines_of(bytes@.take(i as int)).last() == bytes@.subrange(begin as int, i as int),
        decreases bytes@.len() - i,
    {
        let ghost before = bytes@.take(i as int);
        let ghost after = bytes@.take(i + 1);
        assert(after.drop_last() =~= before);
        assert(after.last() == bytes@[i as int]);
        if bytes[i] == 10 {
            if current == n {
                proof {
                    assert(lines_of(after).len() == current + 2);
                    assert(lines_of(after)[n as int] == lines_of(before).last());
                    assert(after.is_prefix_of(bytes@));
                    lemma_lines_grow(after, bytes@, n as int);
                }
                return (begin, i);
            }
            current = current + 1;
            begin = i + 1;
            assert(bytes@.subrange(begin as int, i + 1) =~= Seq::<u8>::empty());
        } else {
            assert(bytes@.subrange(begin as int, i + 1) =~= bytes@.subrange(
                begin as int,
                i as int,
            ).push(bytes@[i as int]));
        }
        i = i + 1;
    }
    assert(bytes@.take(i as int) =~= bytes@);
    (begin, i)
}

/// A column of a line is a boundary between characters of the text.
proof fn lemma_column_is_boundary(bytes: Seq<u8>, begin: int, end: int, col: int)
    requires
        vstd::utf8::valid_utf8(bytes),
        0 <= begin <= end <= bytes.len(),
        end == bytes.len() || bytes[end] == 10,
        is_column(bytes.subrange(begin, end), col),
    ensures
        vstd::utf8::is_char_boundary(bytes, begin + col),
        begin + col <= end,
{
    if begin + col < bytes.len() {
        if begin + col < end {
            assert(bytes.subrange(begin, end)[col] == bytes[begin + col]);
        }
        vstd::utf8::is_char_boundary_iff_not_is_continuation_byte(bytes, begin + col);
    } else {
        vstd::utf8::is_char_boundary_start_end_of_seq(bytes);
    }
}

/// The lines of a text hold no newline, and joined they give the text back.
pub proof fn lines_join_to_the_text(bytes: Seq<u8>)
    ensures
        lines_of(bytes).len() > 0,
        joined(lines_of(bytes)) == bytes,
        forall|n: int, i: int|
            0 <= n < lines_of(bytes).len() && 0 <= i < lines_of(bytes)[n].len() ==> (
            #[trigger] lines_of(bytes)[n][i]) != 10,
    decreases bytes.len(),
{
    let lines = lines_of(bytes);
    if bytes.len() == 0 {
        assert(joined(lines) =~= bytes);
    } else {
        let before = lines_of(bytes.drop_last());
        lines_join_to_the_text(bytes.drop_last());
        if bytes.last() == 10 {
            assert(lines.drop_last() =~= before);
        } else {
            assert(lines.drop_last() =~= before.drop_last());
            assert forall|n: int, i: int|
                0 <= n < lines.len() && 0 <= i < lines[n].len() implies (
            #[trigger] lines[n][i]) != 10 by {
                if n < lines.len() - 1 {
                    assert(lines[n] == before[n]);
                } else if i < lines[n].len() - 1 {
                    assert(lines[n][i] == before[n][i]);
                }
            }
        }
        assert(joined(lines) =~= bytes.drop_last().push(bytes.last()));
        assert(bytes.drop_last().push(bytes.last()) =~= bytes);
    }
}

/// A span has no range if and only if it begins in no file on this machine or ends
/// in another file. The first is reported with the name of the file, wherever the
/// span ends; the second as the source map reports it.
pub proof fn errors_tell_of_files(files: Seq<crate::source::FileModel>, span: Span)
    ensures
        ({
            let begin = files[crate::source::file_at(files, span.lo)];
            let end = files[crate::source::file_at(files, span.hi)];
            let elsewhere = crate::source::file_at(files, span.lo) != crate::source::file_at(
                files,
                span.hi,
            );
            &&& range_in_files(files, span) is Err <==> begin.local_name is None || elsewhere
            &&& range_in_files(files, span) matches Err(error) ==> error.text() == (
            if begin.local_name is None {
                "Range::from_span doesn't support "@ + begin.shown_name
            } else {
                crate::source::two_files_text(
                    begin.shown_name,
                    begin.start,
                    end.shown_name,
                    end.start,
                )
            })
        }),
{
}

/// A range that comes from a span does not end before it begins, unless the span
/// begins before the first line of its file and ends on it.
pub proof fn range_begins_before_it_ends(files: Seq<crate::source::FileModel>, span: Span)
    requires
        crate::source::resolves(files, span),
        ({
            let file = files[crate::source::file_at(files, span.lo)];
            file.lines_begun(span.lo) == 0 ==> file.lines_begun(span.hi) != 1
        }),
    ensures
        range_in_files(files, span) matches Ok(range) ==> range.start_line < range.end_line
            || range.start_line == range.end_line && range.start_col <= range.end_col,
{
    let file = files[crate::source::file_at(files, span.lo)];
    if range_in_files(files, span) is Ok {
        crate::source::lemma_count_monotone(file.lines, span.lo, span.hi);
        crate::source::lemma_char_offset_monotone(file, span.lo, span.hi);
    }
}

/// The range of a span gives the span back, if the span begins on a line of its
/// file, which is not empty, and no character of several bytes stands before its
/// ends on their lines.
pub proof fn span_survives_its_range(
    files: Seq<crate::source::FileModel>,
    span: Span,
    range: Range,
)
    requires
        crate::source::resolves(files, span),
        range_in_files(files, span) == Ok::<RangeModel, RangeErrorModel>(range@),
        ({
            let file = files[crate::source::file_at(files, span.lo)];
            &&& file.start < file.end
            &&& file.lines_begun(span.lo) > 0
            &&& file.narrow_before(span.lo)
            &&& file.narrow_before(span.hi)
        }),
    ensures
        ({
            let file = files[crate::source::file_at(files, span.lo)];
            &&& range.fits(file.line_begins())
            &&& range.span_among(file.line_begins()) == Some(span)
        }),
{
    let file = files[crate::source::file_at(files, span.lo)];
    crate::source::lemma_count_monotone(file.lines, span.lo, span.hi);
    crate::source::lemma_count_bounded(file.lines, span.hi);
    crate::source::lemma_first_counted(file.lines, span.lo);
    assert(range.start_col as int == range@.start_col);
    assert(range.end_col as int == range@.end_col);
}

/// A range has a span among lines if and only if it ends on one of them, on however
/// many lines it stands. The span lies between the positions of the two ends, which
/// are counted from where their lines begin.
pub proof fn span_lies_between_the_ends(range: Range, begins: Seq<u32>)
    requires
        range.fits(begins),
    ensures
        range.span_among(begins) is Some <==> range.end_line < begins.len(),
        range.span_among(begins) matches Some(span) ==> {
            let start = begins[range.start_line as int] + (range.start_col as u32);
            let end = begins[range.end_line as int] + (range.end_col as u32);
            &&& span.lo <= span.hi
            &&& span.lo == start && span.hi == end || span.lo == end && span.hi == start
        },
{
}

/// The range of lines begins where the first of them does and ends where the last of
/// them does; without lines it is at the very beginning. It is in the given file.
pub proof fn range_goes_from_the_first_line_to_the_last(
    filename: Seq<char>,
    lines: Seq<LineColumns>,
)
    ensures
        ({
            let range = range_of_lines(filename, lines);
            &&& range.filename == filename
            &&& lines.len() > 0 ==> range.start_line == lines[0].line_index && range.start_col
                == lines[0].start_col && range.end_line == lines[lines.len() - 1].line_index
                && range.end_col == lines[lines.len() - 1].end_col
            &&& lines.len() == 0 ==> range.start_line == 0 && range.start_col == 0 && range.end_line
                == 0 && range.end_col == 0
        }),
{
}

/// The range of a span is in the file that the span begins in. It begins on the last
/// line that begins no later than the span does, and ends on the last line that
/// begins no later than the span ends.
pub proof fn range_is_on_the_lines_of_its_span(
    files: Seq<crate::source::FileModel>,
    span: Span,
    line: int,
)
    requires
        crate::source::resolves(files, span),
        span.hi > 0,
        range_in_files(files, span) is Ok,
    ensures
        ({
            let range = range_in_files(files, span)->Ok_0;
            let file = files[crate::source::file_at(files, span.lo)];
            &&& file.local_name == Some(range.filename)
            &&& 0 <= line < file.lines.len() ==> {
                &&& file.lines[line] <= span.lo ==> line <= range.start_line
                    && file.lines[range.start_line] <= span.lo
                &&& file.lines[line] > span.lo && line > 0 ==> range.start_line < line
                &&& file.lines[line] <= span.hi ==> line <= range.end_line
                    && file.lines[range.end_line] <= span.hi
                &&& file.lines[line] > span.hi && line > 0 ==> range.end_line < line
            }
        }),
{
    let file = files[crate::source::file_at(files, span.lo)];
    if 0 <= line < file.lines.len() {
        crate::source::line_is_the_last_that_has_begun(file, span.lo, line);
        crate::source::line_is_the_last_that_has_begun(file, span.hi, line);
    }
}

/// The columns of a range count the characters from the beginnings of its lines to
/// the ends of the span: as many as there are bytes, less the bytes beyond the first
/// of each character. The empty span at position zero is at the very beginning.
pub proof fn range_has_the_columns_of_its_span(
    files: Seq<crate::source::FileModel>,
    span: Span,
)
    requires
        crate::source::resolves(files, span),
        range_in_files(files, span) is Ok,
    ensures
        ({
            let range = range_in_files(files, span)->Ok_0;
            let file = files[crate::source::file_at(files, span.lo)];
            let wide = file.wide_chars;
            &&& span.hi == 0 ==> range.start_line == 0 && range.start_col == 0
                && range.end_line == 0 && range.end_col == 0
            &&& span.hi > 0 && file.lines_begun(span.lo) > 0 ==> {
                let begin = file.lines[range.start_line];
                range.start_col == span.lo - begin - (crate::source::extra_bytes(wide, span.lo)
                    - crate::source::extra_bytes(wide, begin))
            }
            &&& span.hi > 0 && file.lines_begun(span.hi) > 0 ==> {
                let begin = file.lines[range.end_line];
                range.end_col == span.hi - begin - (crate::source::extra_bytes(wide, span.hi)
                    - crate::source::extra_bytes(wide, begin))
            }
        }),
{
    let file = files[crate::source::file_at(files, span.lo)];
    if span.hi > 0 && file.lines_begun(span.lo) > 0 {
        crate::source::columns_count_characters(file, span.lo);
    }
    if span.hi > 0 && file.lines_begun(span.hi) > 0 {
        crate::source::columns_count_characters(file, span.hi);
    }
}

/// The ends of a range are found among lines if both of them are on a line and at a
/// position, and of a range that ends after the last line nothing is asked.
pub proof fn range_on_lines_fits(range: Range, begins: Seq<u32>)
    requires
        range.end_line >= begins.len() || range.start_line < begins.len()
            && begins[range.start_line as int] + (range.start_col as u32) <= u32::MAX
            && begins[range.end_line as int] + (range.end_col as u32) <= u32::MAX,
    ensures
        range.fits(begins),
{
}

/// Whether the slicer tells mutable references from shared ones.
#[derive(Debug, PartialEq, Eq, Clone, Copy, Hash, Structural)]
pub enum MutabilityMode {
    DistinguishMut,
    IgnoreMut,
}

/// Whether the slicer looks at the signatures of the functions that are called,
/// or into them.
#[derive(Debug, PartialEq, Eq, Clone, Copy, Hash, Structural)]
pub enum ContextMode {
    SigOnly,
    Recurse,
}

/// How closely the slicer follows pointers.
#[derive(Debug, PartialEq, Eq, Clone, Copy, Hash, Structural)]
pub enum PointerMode {
    Precise,
    Conservative,
}

/// One way of slicing.
#[derive(Debug, PartialEq, Eq, Clone, Copy, Hash, Structural)]
pub struct EvalMode {
    pub mutability_mode: MutabilityMode,
    pub context_mode: ContextMode,
    pub pointer_mode: PointerMode,
}

/// The settings of the slicer.
#[derive(Debug, Clone, PartialEq, Eq, Hash)]
pub struct Config {
    pub range: Range,
    pub debug: bool,
    pub eval_mode: EvalMode,
    pub local: Option<usize>,
}

impl Default for Config {
    fn default() -> (config: Config)
        ensures
            config.range@ == (RangeModel {
                start_line: 0,
                start_col: 0,
                end_line: 0,
                end_col: 0,
                filename: Seq::empty(),
            }),
            !config.debug,
            config.eval_mode == (EvalMode {
                mutability_mode: MutabilityMode::DistinguishMut,
                context_mode: ContextMode::SigOnly,
                pointer_mode: PointerMode::Precise,
            }),
            config.local is None,
    {
        Config {
            range: Range::line(0, 0, 0),
            debug: false,
            eval_mode: EvalMode {
                mutability_mode: MutabilityMode::DistinguishMut,
                context_mode: ContextMode::SigOnly,
                pointer_mode: PointerMode::Precise,
            },
            local: None,
        }
    }
}

} // verus!
