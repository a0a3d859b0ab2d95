//! Positions in source text: byte spans, and the lines and columns that a source
//! map gives for them.

use vstd::prelude::*;

verus! {

/// A range of byte positions in a source map, from `lo` up to but not including
/// `hi`.
#[derive(Clone, Copy, Debug, PartialEq, Eq, Hash, Structural)]
pub struct Span {
    pub lo: u32,
    pub hi: u32,
}

impl Span {
    /// Whether one span lies within another.
    pub open spec fn encloses(self, other: Span) -> bool {
        self.lo <= other.lo && other.hi <= self.hi
    }

    /// The span between two positions, given in either order.
    pub fn new(lo: u32, hi: u32) -> (span: Span)
        ensures
            lo <= hi ==> span == (Span { lo, hi }),
            lo > hi ==> span == (Span { lo: hi, hi: lo }),
    {
        if lo > hi {
            Span { lo: hi, hi: lo }
        } else {
            Span { lo, hi }
        }
    }

    /// Whether `other` lies within this span.
    pub fn contains(self, other: Span) -> (holds: bool)
        ensures
            holds == self.encloses(other),
    {
        self.lo <= other.lo && other.hi <= self.hi
    }
}

/// One line of a span: its number, and the columns that the span takes up on it.
/// Lines and columns count from zero, and columns count characters.
#[derive(Clone, Copy, Debug, PartialEq, Eq, Structural)]
pub struct LineColumns {
    pub line_index: usize,
    pub start_col: usize,
    pub end_col: usize,
}

/// A source map of the compiler.
#[verifier::external_type_specification]
#[verifier::external_body]
pub struct ExSourceMap(rustc_span::source_map::SourceMap);

/// A source file of the compiler.
#[verifier::external_type_specification]
#[verifier::external_body]
pub struct ExSourceFile(rustc_span::SourceFile);

/// What a source map knows of one of its files.
#[derive(Debug)]
pub struct FileTable {
    /// The path of a file on this machine that has not been renamed.
    pub local_name: Option<String>,
    /// The name of the file as it is shown to developers.
    pub shown_name: String,
    /// The position of the first byte.
    pub start: u32,
    /// The position after the last byte.
    pub end: u32,
    /// The positions at which lines begin.
    pub lines: Vec<u32>,
    /// The position and the number of bytes of each character of several bytes.
    pub wide_chars: Vec<(u32, u8)>,
    /// Whether the text is at hand.
    pub has_source: bool,
    /// The positions of the characters that are not one column wide when shown.
    pub odd_chars: Vec<u32>,
}

/// What a `FileTable` denotes.
#[verifier::ext_equal]
pub struct FileModel {
    pub local_name: Option<Seq<char>>,
    pub shown_name: Seq<char>,
    pub start: u32,
    pub end: u32,
    pub lines: Seq<u32>,
    pub wide_chars: Seq<(u32, u8)>,
    pub has_source: bool,
    pub odd_chars: Seq<u32>,
}

impl View for FileTable {
    type V = FileModel;

    open spec fn view(&self) -> FileModel {
        FileModel {
            local_name: match self.local_name {
                Some(name) => Some(name@),
                None => None,
            },
            shown_name: self.shown_name@,
            start: self.start,
            end: self.end,
            lines: self.lines@,
            wide_chars: self.wide_chars@,
            has_source: self.has_source,
            odd_chars: self.odd_chars@,
        }
    }
}

/// How many of `positions` are at or before `pos`.
pub open spec fn count_up_to(positions: Seq<u32>, pos: u32) -> nat
    decreases positions.len(),
{
    if positions.len() == 0 {
        0
    } else {
        count_up_to(positions.drop_last(), pos) + if positions.last() <= pos {
            1nat
        } else {
            0nat
        }
    }
}

/// How many bytes the characters that begin before `pos` have beyond their first.
pub open spec fn extra_bytes(wide_chars: Seq<(u32, u8)>, pos: u32) -> int
    decreases wide_chars.len(),
{
    if wide_chars.len() == 0 {
        0
    } else {
        extra_bytes(wide_chars.drop_last(), pos) + if wide_chars.last().0 < pos {
            wide_chars.last().1 - 1
        } else {
            0
        }
    }
}

impl FileModel {
    /// The number of characters from the beginning of the file to `pos`.
    pub open spec fn char_offset(self, pos: u32) -> int {
        pos - self.start - extra_bytes(self.wide_chars, pos)
    }

    /// The number of lines that have begun at `pos`.
    pub open spec fn lines_begun(self, pos: u32) -> nat {
        count_up_to(self.lines, pos)
    }

    /// The line that `pos` is on.
    pub open spec fn line_index(self, pos: u32) -> int {
        if self.lines_begun(pos) == 0 {
            0
        } else {
            self.lines_begun(pos) - 1
        }
    }

    /// The number of characters from the beginning of its line to `pos`.
    pub open spec fn column(self, pos: u32) -> int {
        if self.lines_begun(pos) == 0 {
            self.char_offset(pos)
        } else {
            self.char_offset(pos) - self.char_offset(self.lines[self.lines_begun(pos) - 1])
        }
    }

    /// Where the lines begin; those of an empty file begin where it does.
    pub open spec fn line_begins(self) -> Seq<u32> {
        if self.start == self.end {
            self.lines.map_values(|begin: u32| self.start)
        } else {
            self.lines
        }
    }

    /// Whether `pos` is not inside a character.
    pub open spec fn between_chars(self, pos: u32) -> bool {
        forall|i: int|
            0 <= i < self.wide_chars.len() && (#[trigger] self.wide_chars[i]).0 < pos
                ==> self.wide_chars[i].0 + self.wide_chars[i].1 <= pos
    }

    /// Whether `pos` is on a line and no character of several bytes stands before
    /// it there.
    pub open spec fn narrow_before(self, pos: u32) -> bool {
        self.lines_begun(pos) > 0 ==> extra_bytes(self.wide_chars, pos) == extra_bytes(
            self.wide_chars,
            self.lines[self.lines_begun(pos) - 1],
        )
    }

    /// Whether lines and characters are listed as they come in a text.
    pub open spec fn well_listed(self) -> bool {
        &&& forall|i: int, j: int|
            0 <= i < j < self.lines.len() ==> self.lines[i] < self.lines[j]
        &&& forall|i: int| 0 <= i < self.lines.len() ==> self.start <= #[trigger] self.lines[i]
        &&& forall|i: int|
            0 <= i < self.wide_chars.len() ==> self.start <= (#[trigger] self.wide_chars[i]).0
                && self.wide_chars[i].1 >= 1
        &&& forall|i: int, j: int|
            0 <= i < j < self.wide_chars.len() ==> #[trigger] self.wide_chars[i].0
                + self.wide_chars[i].1 <= #[trigger] self.wide_chars[j].0
        &&& forall|i: int, j: int|
            0 <= i < j < self.odd_chars.len() ==> self.odd_chars[i] < self.odd_chars[j]
        &&& forall|i: int|
            0 <= i < self.odd_chars.len() ==> self.start <= #[trigger] self.odd_chars[i]
                && self.between_chars(self.odd_chars[i])
    }

    /// Whether the file can tell the line and the column of `pos`.
    pub open spec fn tells(self, pos: u32) -> bool {
        &&& self.well_listed()
        &&& self.between_chars(pos)
        &&& self.lines_begun(pos) > 0 ==> self.between_chars(
            self.lines[self.lines_begun(pos) - 1],
        )
    }
}

/// The beginnings of files.
pub open spec fn file_starts(files: Seq<FileModel>) -> Seq<u32> {
    files.map_values(|f: FileModel| f.start)
}

/// The file that `pos` is in: the last one that begins at or before it.
pub open spec fn file_at(files: Seq<FileModel>, pos: u32) -> int {
    count_up_to(file_starts(files), pos) - 1
}

/// The longest span that the compiler's `Span` can hold.
pub const MAX_SPAN_LEN: u32 = 0xffff;

/// Whether `pos` is in one of `files`, which are listed as they come.
pub open spec fn locates(files: Seq<FileModel>, pos: u32) -> bool {
    &&& forall|i: int, j: int|
        0 <= i < j < files.len() ==> (#[trigger] files[i]).start < (#[trigger] files[j]).start
    &&& files.len() > 0
    &&& files[0].start <= pos
}

/// Whether `files` can tell where a span begins.
pub open spec fn begin_resolves(files: Seq<FileModel>, span: Span) -> bool {
    &&& locates(files, span.lo)
    &&& span.lo <= span.hi
    &&& files[file_at(files, span.lo)].tells(span.lo)
}

/// Whether `files` can tell where a span stands: where it begins and, if that is in
/// a file on this machine, where it ends.
pub open spec fn resolves(files: Seq<FileModel>, span: Span) -> bool {
    &&& begin_resolves(files, span)
    &&& files[file_at(files, span.lo)].local_name is Some ==> {
        &&& span.hi - span.lo <= MAX_SPAN_LEN
        &&& files[file_at(files, span.hi)].tells(span.hi)
    }
}

/// What a source file holds.
pub uninterp spec fn file_of(file: rustc_span::SourceFile) -> FileModel;

/// The files of a source map, in the order of their positions.
pub uninterp spec fn files_of(map: rustc_span::source_map::SourceMap) -> Seq<FileModel>;

/// The fields of `SourceFile`, which stand in the file that `file_of` names. The
/// name is shown by the `Debug` of `FileName`.
#[verifier::external_body]
pub(crate) fn read_file(file: &rustc_span::SourceFile) -> (table: FileTable)
    ensures
        table@ == file_of(*file),
{
    FileTable {
        local_name: match &file.name {
            rustc_span::FileName::Real(rustc_span::RealFileName::LocalPath(path)) =>
                Some(path.to_string_lossy().into_owned()),
            _ => None,
        },
        shown_name: format!("{:?}", file.name),
        start: file.start_pos.0,
        end: file.end_pos.0,
        lines: file.lines.iter().map(|pos| pos.0).collect(),
        wide_chars: file.multibyte_chars.iter().map(|c| (c.pos.0, c.bytes)).collect(),
        has_source: file.src.is_some(),
        odd_chars: file.non_narrow_chars.iter().map(|c| c.pos().0).collect(),
    }
}

/// `SourceMap::files` lists the files that have been added to the map. Files are
/// only ever added, and nothing in this crate adds one.
#[verifier::external_body]
pub(crate) fn source_files(map: &rustc_span::source_map::SourceMap) -> (files: Vec<
    std::sync::Arc<rustc_span::SourceFile>,
>)
    ensures
        files@.map_values(|f: std::sync::Arc<rustc_span::SourceFile>| file_of(*f)) == files_of(
            *map,
        ),
{
    map.files()
}

/// `SourceMap::lookup_source_file` gives the last file that begins at or before a
/// position.
#[verifier::external_body]
pub(crate) fn lookup_source_file(map: &rustc_span::source_map::SourceMap, pos: u32) -> (file:
    std::sync::Arc<rustc_span::SourceFile>)
    requires
        locates(files_of(*map), pos),
    ensures
        file_of(*file) == files_of(*map)[file_at(files_of(*map), pos)],
{
    map.lookup_source_file(rustc_span::BytePos(pos))
}

/// How the `Debug` of `SpanLinesError` shows that a span begins and ends in two
/// files, given how their names are shown and where they begin.
pub uninterp spec fn two_files_text(
    begin_name: Seq<char>,
    begin_start: u32,
    end_name: Seq<char>,
    end_start: u32,
) -> Seq<char>;

/// `SourceMap::span_to_filename` gives the name of the file that the span begins
/// in: the path of a file on this machine that has not been renamed, or else the
/// name as the `Debug` of `FileName` shows it.
#[verifier::external_body]
pub(crate) fn span_to_filename(map: &rustc_span::source_map::SourceMap, span: Span) -> (name:
    Result<String, String>)
    requires
        begin_resolves(files_of(*map), span),
    ensures
        ({
            let file = files_of(*map)[file_at(files_of(*map), span.lo)];
            match name {
                Ok(path) => file.local_name == Some(path@),
                Err(shown) => file.local_name is None && shown@ == file.shown_name,
            }
        }),
{
    let sp = rustc_span::Span::new(rustc_span::BytePos(span.lo), rustc_span::BytePos(span.hi));
    match map.span_to_filename(sp) {
        rustc_span::FileName::Real(rustc_span::RealFileName::LocalPath(path)) =>
            Ok(path.to_string_lossy().into_owned()),
        name => Err(format!("{:?}", name)),
    }
}

/// `SourceMap::span_to_lines` gives an error for a span that begins and ends in two
/// files, an empty list for the empty span at position zero, and otherwise the
/// lines from the one that the span begins on to the one that it ends on, with the
/// columns at which it begins and ends. The error tells the names and the
/// beginnings of the two files; it is handed on as its `Debug` shows it.
#[verifier::external_body]
pub(crate) fn span_to_lines(map: &rustc_span::source_map::SourceMap, span: Span) -> (lines: Result<
    Vec<LineColumns>,
    String,
>)
    requires
        resolves(files_of(*map), span),
        files_of(*map)[file_at(files_of(*map), span.lo)].local_name is Some,
    ensures
        lines is Ok <==> file_at(files_of(*map), span.lo) == file_at(files_of(*map), span.hi),
        lines matches Ok(l) ==> {
            let file = files_of(*map)[file_at(files_of(*map), span.lo)];
            if span.lo == 0 && span.hi == 0 {
                l@.len() == 0
            } else {
                &&& l@.len() > 0
                &&& l@.first().line_index == file.line_index(span.lo)
                &&& l@.first().start_col == file.column(span.lo)
                &&& l@.last().line_index == file.line_index(span.hi)
                &&& l@.last().end_col == file.column(span.hi)
            }
        },
        lines matches Err(text) ==> {
            let begin = files_of(*map)[file_at(files_of(*map), span.lo)];
            let end = files_of(*map)[file_at(files_of(*map), span.hi)];
            text@ == two_files_text(begin.shown_name, begin.start, end.shown_name, end.start)
        },
{
    let sp = rustc_span::Span::new(rustc_span::BytePos(span.lo), rustc_span::BytePos(span.hi));
    match map.span_to_lines(sp) {
        Ok(lines) => Ok(lines.lines.iter().map(|l| LineColumns {
            line_index: l.line_index,
            start_col: l.start_col.0,
            end_col: l.end_col.0,
        }).collect()),
        Err(error) => Err(format!("{:?}", error)),
    }
}

/// `SourceFile::count_lines` gives the number of lines.
#[verifier::external_body]
pub(crate) fn count_lines(file: &rustc_span::SourceFile) -> (count: usize)
    ensures
        count == file_of(*file).line_begins().len(),
{
    file.count_lines()
}

/// `SourceFile::line_bounds` gives where a line begins and ends; this is where it
/// begins.
#[verifier::external_body]
pub(crate) fn line_begin(file: &rustc_span::SourceFile, line: usize) -> (begin: u32)
    requires
        line < file_of(*file).line_begins().len(),
    ensures
        begin == file_of(*file).line_begins()[line as int],
{
    file.line_bounds(line).start.0
}

/// Where the lines of a source file begin.
pub fn line_begins(file: &rustc_span::SourceFile) -> (begins: Vec<u32>)
    ensures
        begins@ == file_of(*file).line_begins(),
{
    let count = count_lines(file);
    let mut begins: Vec<u32> = Vec::new();
    let mut i: usize = 0;
    while i < count
        invariant
            i <= count,
            count == file_of(*file).line_begins().len(),
            begins@ == file_of(*file).line_begins().take(i as int),
        decreases count - i,
    {
        begins.push(line_begin(file, i));
        i = i + 1;
        assert(begins@ =~= file_of(*file).line_begins().take(i as int));
    }
    assert(begins@ =~= file_of(*file).line_begins());
    begins
}

/// How many of `positions` are at or before `pos`.
fn count_positions(positions: &Vec<u32>, pos: u32) -> (count: usize)
    ensures
        count == count_up_to(positions@, pos),
        count <= positions@.len(),
{
    let mut count: usize = 0;
    let mut i: usize = 0;
    while i < positions.len()
        invariant
            i <= positions@.len(),
            count <= i,
            count == count_up_to(positions@.take(i as int), pos),
        decreases positions@.len() - i,
    {
        assert(positions@.take(i + 1).drop_last() =~= positions@.take(i as int));
        if positions[i] <= pos {
            count = count + 1;
        }
        i = i + 1;
    }
    assert(positions@.take(i as int) =~= positions@);
    count
}

impl FileTable {
    /// Whether `pos` is not inside a character.
    fn is_between_chars(&self, pos: u32) -> (holds: bool)
        ensures
            holds == self@.between_chars(pos),
    {
        let mut i: usize = 0;
        while i < self.wide_chars.len()
            invariant
                i <= self.wide_chars@.len(),
                forall|k: int|
                    0 <= k < i && (#[trigger] self@.wide_chars[k]).0 < pos
                        ==> self@.wide_chars[k].0 + self@.wide_chars[k].1 <= pos,
            decreases self.wide_chars@.len() - i,
        {
            let (begin, bytes) = self.wide_chars[i];
            assert(self@.wide_chars[i as int] == (begin, bytes));
            if begin < pos && begin as u64 + bytes as u64 > pos as u64 {
                return false;
            }
            i = i + 1;
        }
        true
    }

    /// Whether lines and characters are listed as they come in a text.
    fn is_well_listed(&self) -> (holds: bool)
        ensures
            holds == self@.well_listed(),
    {
        let mut i: usize = 0;
        while i < self.lines.len()
            invariant
                i <= self.lines@.len(),
                forall|k: int| 0 <= k < i ==> self.start <= #[trigger] self@.lines[k],
                forall|k: int, j: int| 0 <= k < j < i ==> self@.lines[k] < self@.lines[j],
            decreases self.lines@.len() - i,
        {
            assert(self@.lines[i as int] == self.lines@[i as int]);
            if self.lines[i] < self.start || i > 0 && self.lines[i - 1] >= self.lines[i] {
                assert(i > 0 ==> self@.lines[i - 1] == self.lines@[i - 1]);
                return false;
            }
            assert(i > 0 ==> self@.lines[i - 1] == self.lines@[i - 1]);
            i = i + 1;
        }
        let mut i: usize = 0;
        while i < self.wide_chars.len()
            invariant
                i <= self.wide_chars@.len(),
                forall|k: int|
                    0 <= k < i ==> self.start <= (#[trigger] self@.wide_chars[k]).0
                        && self@.wide_chars[k].1 >= 1,
                forall|k: int, j: int|
                    0 <= k < j < i ==> #[trigger] self@.wide_chars[k].0 + self@.wide_chars[k].1
                        <= #[trigger] self@.wide_chars[j].0,
            decreases self.wide_chars@.len() - i,
        {
            let (begin, bytes) = self.wide_chars[i];
            assert(self@.wide_chars[i as int] == (begin, bytes));
            if begin < self.start || bytes < 1 {
                return false;
            }
            if i > 0 {
                let (before, length) = self.wide_chars[i - 1];
                assert(self@.wide_chars[i - 1] == (before, length));
                if before as u64 + length as u64 > begin as u64 {
                    return false;
                }
            }
            i = i + 1;
        }
        let mut i: usize = 0;
        while i < self.odd_chars.len()
            invariant
                i <= self.odd_chars@.len(),
                forall|k: int|
                    0 <= k < i ==> self.start <= #[trigger] self@.odd_chars[k]
                        && self@.between_chars(self@.odd_chars[k]),
                forall|k: int, j: int|
                    0 <= k < j < i ==> self@.odd_chars[k] < self@.odd_chars[j],
            decreases self.odd_chars@.len() - i,
        {
            let pos = self.odd_chars[i];
            assert(self@.odd_chars[i as int] == pos);
            if pos < self.start || !self.is_between_chars(pos) {
                return false;
            }
            if i > 0 {
                assert(self@.odd_chars[i - 1] == self.odd_chars@[i - 1]);
                if self.odd_chars[i - 1] >= pos {
                    return false;
                }
            }
            i = i + 1;
        }
        true
    }

    /// Whether the file can tell the line and the column of `pos`.
    fn can_tell(&self, pos: u32) -> (holds: bool)
        ensures
            holds == self@.tells(pos),
    {
        if !self.is_well_listed() || !self.is_between_chars(pos) {
            return false;
        }
        let begun = count_positions(&self.lines, pos);
        begun == 0 || self.is_between_chars(self.lines[begun - 1])
    }
}

/// What the files of a source map hold.
pub fn read_files(map: &rustc_span::source_map::SourceMap) -> (tables: Vec<FileTable>)
    ensures
        tables@.map_values(|f: FileTable| f@) == files_of(*map),
{
    let files = source_files(map);
    let ghost models = files_of(*map);
    let mut tables: Vec<FileTable> = Vec::new();
    let mut i: usize = 0;
    while i < files.len()
        invariant
            i <= files@.len(),
            tables@.len() == i,
            models == files@.map_values(
                |f: std::sync::Arc<rustc_span::SourceFile>| file_of(*f),
            ),
            forall|k: int| 0 <= k < i ==> (#[trigger] tables@[k])@ == models[k],
        decreases files@.len() - i,
    {
        tables.push(read_file(&files[i]));
        assert(models[i as int] == file_of(*files@[i as int]));
        i = i + 1;
    }
    assert(tables@.map_values(|f: FileTable| f@) =~= models);
    tables
}

/// Whether the files of a source map can tell where a span stands.
pub fn span_resolves(map: &rustc_span::source_map::SourceMap, span: Span) -> (holds: bool)
    ensures
        holds == resolves(files_of(*map), span),
{
    let files = read_files(map);
    files_resolve(&files, span)
}

/// Whether a position is in one of the files of a source map.
pub fn position_is_located(map: &rustc_span::source_map::SourceMap, pos: u32) -> (holds: bool)
    ensures
        holds == locates(files_of(*map), pos),
{
    let files = read_files(map);
    files_locate(&files, pos)
}

/// Whether `pos` is in one of `files`, which are listed as they come.
pub fn files_locate(files: &Vec<FileTable>, pos: u32) -> (holds: bool)
    ensures
        holds == locates(files@.map_values(|f: FileTable| f@), pos),
{
    let ghost models = files@.map_values(|f: FileTable| f@);
    if files.len() == 0 || files[0].start > pos {
        assert(files@.len() > 0 ==> models[0].start == files@[0].start);
        return false;
    }
    let mut i: usize = 1;
    while i < files.len()
        invariant
            1 <= i <= files@.len(),
            models == files@.map_values(|f: FileTable| f@),
            forall|k: int, j: int|
                0 <= k < j < i ==> (#[trigger] models[k]).start < (#[trigger] models[j]).start,
        decreases files@.len() - i,
    {
        assert(models[i as int].start == files@[i as int].start);
        assert(models[i - 1].start == files@[i - 1].start);
        if files[i - 1].start >= files[i].start {
            return false;
        }
        i = i + 1;
    }
    true
}

/// Whether files can tell where a span stands.
pub fn files_resolve(files: &Vec<FileTable>, span: Span) -> (holds: bool)
    ensures
        holds == resolves(files@.map_values(|f: FileTable| f@), span),
{
    let ghost models = files@.map_values(|f: FileTable| f@);
    if !files_locate(files, span.lo) || span.lo > span.hi {
        return false;
    }
    let mut starts: Vec<u32> = Vec::new();
    let mut i: usize = 0;
    while i < files.len()
        invariant
            i <= files@.len(),
            models == files@.map_values(|f: FileTable| f@),
            starts@.len() == i,
            forall|k: int| 0 <= k < i ==> starts@[k] == (#[trigger] models[k]).start,
        decreases files@.len() - i,
    {
        assert(models[i as int].start == files@[i as int].start);
        starts.push(files[i].start);
        i = i + 1;
    }
    assert(starts@ =~= file_starts(models));
    proof {
        lemma_count_positive(starts@, span.lo);
        lemma_count_positive(starts@, span.hi);
    }
    let first = count_positions(&starts, span.lo) - 1;
    let last = count_positions(&starts, span.hi) - 1;
    assert(models[first as int] == files@[first as int]@);
    assert(models[last as int] == files@[last as int]@);
    if !files[first].can_tell(span.lo) {
        return false;
    }
    files[first].local_name.is_none() || span.hi - span.lo <= MAX_SPAN_LEN
        && files[last].can_tell(span.hi)
}

/// A position at or after the first of some positions counts it.
proof fn lemma_count_positive(positions: Seq<u32>, pos: u32)
    requires
        positions.len() > 0,
        positions[0] <= pos,
    ensures
        count_up_to(positions, pos) > 0,
    decreases positions.len(),
{
    if positions.len() > 1 {
        assert(positions.drop_last()[0] == positions[0]);
        lemma_count_positive(positions.drop_last(), pos);
    }
}

/// No more positions are counted than there are.
pub proof fn lemma_count_bounded(positions: Seq<u32>, pos: u32)
    ensures
        count_up_to(positions, pos) <= positions.len(),
    decreases positions.len(),
{
    if positions.len() > 0 {
        lemma_count_bounded(positions.drop_last(), pos);
    }
}

/// A later position counts no fewer positions.
pub proof fn lemma_count_monotone(positions: Seq<u32>, lo: u32, hi: u32)
    requires
        lo <= hi,
    ensures
        count_up_to(positions, lo) <= count_up_to(positions, hi),
    decreases positions.len(),
{
    if positions.len() > 0 {
        lemma_count_monotone(positions.drop_last(), lo, hi);
    }
}

/// Where a position counts any of some ascending positions, it counts the first,
/// and no other if it is the first.
pub proof fn lemma_first_counted(positions: Seq<u32>, pos: u32)
    requires
        forall|i: int, j: int| 0 <= i < j < positions.len() ==> positions[i] < positions[j],
        count_up_to(positions, pos) > 0,
    ensures
        positions.len() > 0,
        positions[0] <= pos,
        positions[0] == pos ==> count_up_to(positions, pos) == 1,
    decreases positions.len(),
{
    let before = positions.drop_last();
    if count_up_to(before, pos) > 0 {
        lemma_first_counted(before, pos);
    } else if before.len() > 0 {
        assert(before[0] < positions.last());
    }
}

/// Between two positions that are not inside a character, there are no more bytes
/// beyond the first of their characters than bytes.
proof fn lemma_extra_bytes_between(wide_chars: Seq<(u32, u8)>, lo: u32, hi: u32)
    requires
        lo <= hi,
        forall|i: int| 0 <= i < wide_chars.len() ==> (#[trigger] wide_chars[i]).1 >= 1,
        forall|i: int, j: int|
            0 <= i < j < wide_chars.len() ==> #[trigger] wide_chars[i].0 + wide_chars[i].1
                <= #[trigger] wide_chars[j].0,
        forall|i: int|
            0 <= i < wide_chars.len() && (#[trigger] wide_chars[i]).0 < hi ==> wide_chars[i].0
                + wide_chars[i].1 <= hi,
    ensures
        extra_bytes(wide_chars, hi) - extra_bytes(wide_chars, lo) <= hi - lo,
    decreases wide_chars.len(),
{
    if wide_chars.len() > 0 {
        let before = wide_chars.drop_last();
        let (begin, bytes) = wide_chars.last();
        if lo <= begin < hi {
            lemma_extra_bytes_between(before, lo, begin);
            lemma_extra_bytes_settled(before, begin, hi);
        } else {
            lemma_extra_bytes_between(before, lo, hi);
        }
    }
}

/// Past the last character, the number of bytes beyond first ones stays.
proof fn lemma_extra_bytes_settled(wide_chars: Seq<(u32, u8)>, lo: u32, hi: u32)
    requires
        lo <= hi,
        forall|i: int| 0 <= i < wide_chars.len() ==> (#[trigger] wide_chars[i]).0 < lo,
    ensures
        extra_bytes(wide_chars, hi) == extra_bytes(wide_chars, lo),
    decreases wide_chars.len(),
{
    if wide_chars.len() > 0 {
        lemma_extra_bytes_settled(wide_chars.drop_last(), lo, hi);
    }
}

/// A later position has no fewer characters before it.
pub proof fn lemma_char_offset_monotone(file: FileModel, lo: u32, hi: u32)
    requires
        file.well_listed(),
        file.between_chars(hi),
        lo <= hi,
    ensures
        file.char_offset(lo) <= file.char_offset(hi),
{
    lemma_extra_bytes_between(file.wide_chars, lo, hi);
}

/// A position is on the last line that begins at or before it; on the first one, if
/// none does.
pub proof fn line_is_the_last_that_has_begun(file: FileModel, pos: u32, line: int)
    requires
        file.well_listed(),
        0 <= line < file.lines.len(),
    ensures
        0 <= file.line_index(pos) < file.lines.len(),
        file.lines[line] <= pos ==> line <= file.line_index(pos) && file.lines[file.line_index(
            pos,
        )] <= pos,
        file.lines[line] > pos && line > 0 ==> file.line_index(pos) < line,
{
    lemma_counted(file.lines, pos, line);
    lemma_count_bounded(file.lines, pos);
    if file.lines_begun(pos) > 0 {
        lemma_counted(file.lines, pos, file.lines_begun(pos) - 1);
    }
}

/// A position counts just those of some ascending positions that are at or before it.
proof fn lemma_counted(positions: Seq<u32>, pos: u32, i: int)
    requires
        forall|i: int, j: int| 0 <= i < j < positions.len() ==> positions[i] < positions[j],
        0 <= i < positions.len(),
    ensures
        positions[i] <= pos <==> i < count_up_to(positions, pos),
    decreases positions.len(),
{
    let before = positions.drop_last();
    lemma_count_bounded(before, pos);
    if i < before.len() {
        lemma_counted(before, pos, i);
        if positions.last() <= pos {
            assert(before[i] < positions.last());
        }
    } else if before.len() > 0 {
        lemma_counted(before, pos, before.len() - 1);
        assert(before[before.len() - 1] < positions.last());
    }
}

/// A line begins at its first column. From there a column is as many characters on
/// as there are bytes, less the bytes beyond the first of each character that begins
/// in between.
pub proof fn columns_count_characters(file: FileModel, pos: u32)
    requires
        file.well_listed(),
        file.lines_begun(pos) > 0,
    ensures
        ({
            let begin = file.lines[file.line_index(pos)];
            &&& begin <= pos
            &&& file.column(begin) == 0
            &&& file.column(pos) == pos - begin - (extra_bytes(file.wide_chars, pos) - extra_bytes(
                file.wide_chars,
                begin,
            ))
        }),
{
    lemma_count_bounded(file.lines, pos);
    let line = file.line_index(pos);
    lemma_counted(file.lines, pos, line);
    let begin = file.lines[line];
    lemma_counted(file.lines, begin, line);
    lemma_count_bounded(file.lines, begin);
    if file.lines_begun(begin) > line + 1 {
        lemma_counted(file.lines, begin, line + 1);
    }
}

/// Bytes beyond the first are those of the characters that begin before a position,
/// each character by itself.
pub proof fn extra_bytes_add_up(
    first: Seq<(u32, u8)>,
    second: Seq<(u32, u8)>,
    character: (u32, u8),
    pos: u32,
)
    ensures
        extra_bytes(first + second, pos) == extra_bytes(first, pos) + extra_bytes(second, pos),
        character.0 < pos ==> extra_bytes(seq![character], pos) == character.1 - 1,
        character.0 >= pos ==> extra_bytes(seq![character], pos) == 0,
    decreases second.len(),
{
    if second.len() == 0 {
        assert(first + second =~= first);
    } else {
        extra_bytes_add_up(first, second.drop_last(), character, pos);
        assert((first + second).drop_last() =~= first + second.drop_last());
    }
    let one = seq![character];
    assert(one.drop_last() =~= Seq::<(u32, u8)>::empty());
    assert(extra_bytes(one.drop_last(), pos) == 0);
}

/// A position is in the last file that begins at or before it.
pub proof fn file_is_the_last_that_has_begun(files: Seq<FileModel>, pos: u32, other: int)
    requires
        forall|i: int, j: int|
            0 <= i < j < files.len() ==> (#[trigger] files[i]).start < (#[trigger] files[j]).start,
        files.len() > 0,
        files[0].start <= pos,
    ensures
        locates(files, pos),
        0 <= file_at(files, pos) < files.len(),
        files[file_at(files, pos)].start <= pos,
        file_at(files, pos) < other < files.len() ==> files[other].start > pos,
{
    let starts = file_starts(files);
    assert forall|i: int, j: int| 0 <= i < j < starts.len() implies starts[i] < starts[j] by {
        assert(files[i].start < files[j].start);
    }
    lemma_count_bounded(starts, pos);
    lemma_counted(starts, pos, 0);
    lemma_counted(starts, pos, file_at(files, pos));
    if file_at(files, pos) < other < files.len() {
        lemma_counted(starts, pos, other);
    }
}

/// A file whose lines and characters are listed as they come tells the line and the
/// column of every position that is not inside a character and whose line does not
/// begin inside one, whether or not its text is at hand and however its characters
/// are shown.
pub proof fn listed_file_tells(file: FileModel, pos: u32)
    requires
        forall|i: int, j: int| 0 <= i < j < file.lines.len() ==> file.lines[i] < file.lines[j],
        forall|i: int| 0 <= i < file.lines.len() ==> file.start <= #[trigger] file.lines[i],
        forall|i: int|
            0 <= i < file.wide_chars.len() ==> file.start <= (#[trigger] file.wide_chars[i]).0
                && file.wide_chars[i].1 >= 1,
        forall|i: int, j: int|
            0 <= i < j < file.wide_chars.len() ==> #[trigger] file.wide_chars[i].0
                + file.wide_chars[i].1 <= #[trigger] file.wide_chars[j].0,
        forall|i: int, j: int|
            0 <= i < j < file.odd_chars.len() ==> file.odd_chars[i] < file.odd_chars[j],
        forall|i: int, k: int|
            #![trigger file.odd_chars[i], file.wide_chars[k]]
            0 <= i < file.odd_chars.len() && 0 <= k < file.wide_chars.len()
                && file.wide_chars[k].0 < file.odd_chars[i] ==> file.wide_chars[k].0
                + file.wide_chars[k].1 <= file.odd_chars[i],
        forall|i: int| 0 <= i < file.odd_chars.len() ==> file.start <= #[trigger] file.odd_chars[i],
        forall|k: int|
            0 <= k < file.wide_chars.len() && (#[trigger] file.wide_chars[k]).0 < pos
                ==> file.wide_chars[k].0 + file.wide_chars[k].1 <= pos,
        forall|i: int, k: int|
            #![trigger file.lines[i], file.wide_chars[k]]
            0 <= i < file.lines.len() && 0 <= k < file.wide_chars.len() && file.wide_chars[k].0
                < file.lines[i] ==> file.wide_chars[k].0 + file.wide_chars[k].1 <= file.lines[i],
    ensures
        file.tells(pos),
{
    lemma_count_bounded(file.lines, pos);
}

/// A span resolves if it does not end before it begins, its files tell where its two
/// ends are and it is no longer than the compiler's spans. Of what is no file on this
/// machine only the beginning is asked.
pub proof fn told_span_resolves(files: Seq<FileModel>, span: Span)
    requires
        locates(files, span.lo),
        span.lo <= span.hi,
        files[file_at(files, span.lo)].tells(span.lo),
        files[file_at(files, span.lo)].local_name is None || span.hi - span.lo <= 0xffff
            && files[file_at(files, span.hi)].tells(span.hi),
    ensures
        resolves(files, span),
{
}

/// Containment of spans is an order: every span contains itself, and what
/// contains a span contains what that span contains.
pub proof fn span_containment_is_an_order(a: Span, b: Span, c: Span)
    ensures
        a.encloses(a),
        a.encloses(b) && b.encloses(c) ==> a.encloses(c),
        a.encloses(b) && b.encloses(a) ==> a == b,
{
}

} // verus!
