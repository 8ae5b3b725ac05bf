//! The annotated report of an error chain: one block of source text for
//! each file the chain speaks of, with every frame marked in its block.

use crate::bytes::LINE_FEED;
use crate::error::{Error, Frame};
use crate::span::SpanView;
use crate::spanned::Spanned;
use crate::text::{lemma_seek, seek, str_eq};
use annotate_snippets::{Level, Renderer};
use vstd::prelude::*;
use vstd::string::StringExecFns;
use vstd::utf8::{encode_utf8, is_char_boundary};

verus! {

/// Whether a mark is the one the report is about or one that explains it.
#[derive(Clone, Copy, PartialEq, Eq, Structural, Debug)]
pub enum Severity {
    Primary,
    Note,
}

/// A marked range of bytes in the source text of a block.
#[derive(Clone, PartialEq, Eq, Debug)]
pub struct Annotation {
    pub start: usize,
    pub end: usize,
    pub severity: Severity,
    pub label: Option<String>,
}

/// The source text of one file and the marks in it.
#[derive(Clone, PartialEq, Eq, Debug)]
pub struct Snippet {
    pub source: String,
    pub origin: String,
    pub fold: bool,
    pub annotations: Vec<Annotation>,
}

/// A whole report: its title and its blocks, in order.
#[derive(Clone, PartialEq, Eq, Debug)]
pub struct Document {
    pub title: String,
    pub snippets: Vec<Snippet>,
}

/// The text of a file, as it was read when the report is made.
#[derive(Clone, PartialEq, Eq, Debug)]
pub struct SourceFile {
    pub path: String,
    pub contents: String,
}

/// What an [`Annotation`] stands for.
pub struct AnnotationView {
    pub start: int,
    pub end: int,
    pub severity: Severity,
    pub label: Option<Seq<char>>,
}

/// What a [`Snippet`] stands for.
pub struct SnippetView {
    pub source: Seq<char>,
    pub origin: Seq<char>,
    pub fold: bool,
    pub annotations: Seq<AnnotationView>,
}

/// What a [`Document`] stands for.
pub struct DocumentView {
    pub title: Seq<char>,
    pub snippets: Seq<SnippetView>,
}

/// What a [`SourceFile`] stands for.
pub struct SourceFileView {
    pub path: Seq<char>,
    pub contents: Seq<char>,
}

impl View for Annotation {
    type V = AnnotationView;

    open spec fn view(&self) -> AnnotationView {
        AnnotationView {
            start: self.start as int,
            end: self.end as int,
            severity: self.severity,
            label: match self.label {
                Some(text) => Some(text@),
                None => None,
            },
        }
    }
}

impl View for Snippet {
    type V = SnippetView;

    open spec fn view(&self) -> SnippetView {
        SnippetView {
            source: self.source@,
            origin: self.origin@,
            fold: self.fold,
            annotations: self.annotations@.map_values(|a: Annotation| a@),
        }
    }
}

impl View for Document {
    type V = DocumentView;

    open spec fn view(&self) -> DocumentView {
        DocumentView {
            title: self.title@,
            snippets: self.snippets@.map_values(|s: Snippet| s@),
        }
    }
}

impl View for SourceFile {
    type V = SourceFileView;

    open spec fn view(&self) -> SourceFileView {
        SourceFileView { path: self.path@, contents: self.contents@ }
    }
}

impl AnnotationView {
    /// The mark begins and ends between two characters of `source`, and
    /// does not end before it begins.
    pub open spec fn fits(self, source: Seq<char>) -> bool {
        &&& self.start <= self.end
        &&& is_char_boundary(encode_utf8(source), self.start)
        &&& is_char_boundary(encode_utf8(source), self.end)
    }
}

/// The longest line, in bytes, that is drawn whole whatever the marks are.
pub const WHOLE_LINE: usize = 117;

/// The widest indentation, in columns, that a longer line may have.
pub const SHORT_INDENT: usize = 12;

/// Where the line begins that holds byte `at`.
pub open spec fn line_start(bytes: Seq<u8>, at: int) -> int
    decreases at,
{
    if at <= 0 {
        0
    } else if bytes[at - 1] == LINE_FEED {
        at
    } else {
        line_start(bytes, at - 1)
    }
}

/// Whether the line that begins at `at`, after `width` columns of
/// indentation already seen, goes on with spaces and tabs up to
/// [`SHORT_INDENT`] columns in all, a tab counting four, and then with a
/// printable character of ASCII.
pub open spec fn indented_little(bytes: Seq<u8>, at: int, width: int) -> bool
    decreases bytes.len() - at,
{
    if at < 0 || at >= bytes.len() || width > SHORT_INDENT {
        false
    } else if bytes[at] == 32 {
        indented_little(bytes, at + 1, width + 1)
    } else if bytes[at] == 9 {
        indented_little(bytes, at + 1, width + 4)
    } else {
        33 <= bytes[at] <= 126
    }
}

/// Whether every line that begins in `from..=to` can be drawn: it is no
/// longer than [`WHOLE_LINE`], or it is indented little, so that cutting it
/// to the width of the report leaves its marks in view.
pub open spec fn lines_drawable(bytes: Seq<u8>, from: int, to: int) -> bool
    decreases bytes.len() - from,
    via lines_drawable_decreases
{
    if from < 0 || from >= bytes.len() || from > to {
        true
    } else {
        let feed = seek(bytes, LINE_FEED, from);
        if feed - from > WHOLE_LINE && !indented_little(bytes, from, 0) {
            false
        } else if feed >= bytes.len() {
            true
        } else {
            lines_drawable(bytes, feed + 1, to)
        }
    }
}

#[via_fn]
proof fn lines_drawable_decreases(bytes: Seq<u8>, from: int, to: int) {
    if 0 <= from <= bytes.len() {
        lemma_seek(bytes, LINE_FEED, from);
    }
}

/// The least start among the first `n` marks.
pub open spec fn least_start(marks: Seq<AnnotationView>, n: int) -> int
    decreases n,
{
    if n <= 1 {
        marks[0].start
    } else if marks[n - 1].start < least_start(marks, n - 1) {
        marks[n - 1].start
    } else {
        least_start(marks, n - 1)
    }
}

/// The greatest end among the first `n` marks.
pub open spec fn greatest_end(marks: Seq<AnnotationView>, n: int) -> int
    decreases n,
{
    if n <= 1 {
        marks[0].end
    } else if marks[n - 1].end > greatest_end(marks, n - 1) {
        marks[n - 1].end
    } else {
        greatest_end(marks, n - 1)
    }
}

impl SnippetView {
    /// The bytes of the text of the block.
    pub open spec fn bytes(self) -> Seq<u8> {
        encode_utf8(self.source)
    }

    /// Where the part of the text begins that is drawn: a folded block is
    /// drawn from the line of its first mark on, any other from its start.
    pub open spec fn drawn_from(self) -> int {
        if self.fold && self.annotations.len() > 0 {
            line_start(self.bytes(), least_start(self.annotations, self.annotations.len() as int))
        } else {
            0
        }
    }

    /// Where the part of the text ends that is drawn: a folded block is
    /// drawn up to the end of the line of its last mark, any other to its end.
    pub open spec fn drawn_to(self) -> int {
        if self.fold && self.annotations.len() > 0 {
            seek(
                self.bytes(),
                LINE_FEED,
                greatest_end(self.annotations, self.annotations.len() as int),
            )
        } else {
            self.bytes().len() as int
        }
    }

    /// Whether mark `j` is drawn as it stands. A mark that repeats the range
    /// of an earlier one and reaches past a line feed is drawn at the last
    /// byte of the range alone, which must then begin a character.
    pub open spec fn repeat_fits(self, j: int) -> bool {
        let mark = self.annotations[j];
        (exists|i: int|
            0 <= i < j && (#[trigger] self.annotations[i]).start == mark.start
                && self.annotations[i].end == mark.end) && seek(
            self.bytes(),
            LINE_FEED,
            mark.start,
        ) < mark.end - 1 ==> is_char_boundary(self.bytes(), mark.end - 1)
    }

    /// Every mark of the block fits its text, a mark that repeats another
    /// is drawn as it stands, and every line that is drawn can be drawn.
    pub open spec fn renderable(self) -> bool {
        &&& forall|i: int|
            0 <= i < self.annotations.len() ==> (#[trigger] self.annotations[i]).fits(self.source)
        &&& forall|j: int| 0 <= j < self.annotations.len() ==> #[trigger] self.repeat_fits(j)
        &&& lines_drawable(self.bytes(), self.drawn_from(), self.drawn_to())
    }
}

impl DocumentView {
    /// Every mark of the report fits the text of its block, so that the
    /// report can be drawn.
    pub open spec fn renderable(self) -> bool {
        forall|i: int| 0 <= i < self.snippets.len() ==> (#[trigger] self.snippets[i]).renderable()
    }

    /// The number of marks in the first `n` blocks.
    pub open spec fn marks(self, n: int) -> int
        decreases n,
    {
        if n <= 0 {
            0
        } else {
            self.marks(n - 1) + self.snippets[n - 1].annotations.len()
        }
    }
}

/// The text that `annotate_snippets` draws for a report without colours.
pub uninterp spec fn plain_rendering(doc: DocumentView) -> Seq<char>;

/// `annotate_snippets::Renderer::render` with `Renderer::plain`: the report
/// as text without colours. Every mark is drawn at the level of an error.
/// The renderer cuts each line of the text at the offsets of its marks,
/// draws a mark that repeats another at the last byte of its range, and
/// shortens a long line by what its indentation and its marks allow; it
/// stops with a panic where an offset lies inside a character or where a
/// long line is indented further than its marks reach. A report that can
/// be drawn, as [`DocumentView::renderable`] says, has neither.
#[verifier::external_body]
fn render_plain(doc: &Document) -> (res: String)
    requires
        doc@.renderable(),
    ensures
        res@ == plain_rendering(doc@),
{
    let message = Level::Error.title(&doc.title).snippets(doc.snippets.iter().map(|s| {
        annotate_snippets::Snippet::source(&s.source).origin(&s.origin).fold(s.fold).annotations(
            s.annotations.iter().map(|a| {
                a.label.iter().fold(Level::Error.span(a.start..a.end), |mark, text| mark.label(text))
            }),
        )
    }));
    Renderer::plain().render(message).to_string()
}

/// The text that `annotate_snippets` draws for a report with colours. The
/// colour codes are those for Windows or those for every other platform,
/// as `windows` says.
pub uninterp spec fn styled_rendering(doc: DocumentView, windows: bool) -> Seq<char>;

/// Whether `text` is the report `doc` as text, with colours or without.
pub open spec fn rendering_of(doc: DocumentView, color: bool, text: Seq<char>) -> bool {
    if color {
        exists|windows: bool| text == #[trigger] styled_rendering(doc, windows)
    } else {
        text == plain_rendering(doc)
    }
}

/// `annotate_snippets::Renderer::render` with `Renderer::styled`: the report
/// as text with the colour codes of the platform the program was built
/// for. Every mark is drawn at the level of an error, and the report must
/// be one that can be drawn, as for the text without colours.
#[verifier::external_body]
fn render_styled(doc: &Document) -> (res: String)
    requires
        doc@.renderable(),
    ensures
        exists|windows: bool| res@ == #[trigger] styled_rendering(doc@, windows),
{
    let message = Level::Error.title(&doc.title).snippets(doc.snippets.iter().map(|s| {
        annotate_snippets::Snippet::source(&s.source).origin(&s.origin).fold(s.fold).annotations(
            s.annotations.iter().map(|a| {
                a.label.iter().fold(Level::Error.span(a.start..a.end), |mark, text| mark.label(text))
            }),
        )
    }));
    Renderer::styled().render(message).to_string()
}

/// `colored::control::SHOULD_COLORIZE`: whether the terminal and the
/// environment of this process ask for colours.
#[verifier::external_body]
fn should_colorize() -> bool {
    colored::control::SHOULD_COLORIZE.should_colorize()
}

/// The first line feed of `bytes` from `from` on, or their length.
fn find_feed(bytes: &[u8], from: usize) -> (res: usize)
    requires
        from <= bytes@.len(),
    ensures
        res == seek(bytes@, LINE_FEED, from as int),
        from <= res <= bytes@.len(),
{
    let mut at = from;
    while at < bytes.len() && bytes[at] != LINE_FEED
        invariant
            from <= at <= bytes@.len(),
            seek(bytes@, LINE_FEED, from as int) == seek(bytes@, LINE_FEED, at as int),
        decreases bytes@.len() - at,
    {
        at = at + 1;
    }
    at
}

/// Where the line begins that holds byte `at`.
fn start_of_line(bytes: &[u8], at: usize) -> (res: usize)
    requires
        at <= bytes@.len(),
    ensures
        res == line_start(bytes@, at as int),
        res <= at,
{
    let mut from = at;
    while from > 0 && bytes[from - 1] != LINE_FEED
        invariant
            from <= at <= bytes@.len(),
            line_start(bytes@, at as int) == line_start(bytes@, from as int),
        decreases from,
    {
        from = from - 1;
    }
    from
}

/// Whether the line that begins at `from` is indented little.
fn little_indent(bytes: &[u8], from: usize) -> (res: bool)
    requires
        from <= bytes@.len(),
    ensures
        res == indented_little(bytes@, from as int, 0),
{
    let mut at = from;
    let mut width: usize = 0;
    while at < bytes.len() && width <= SHORT_INDENT && (bytes[at] == 32 || bytes[at] == 9)
        invariant
            from <= at <= bytes@.len(),
            width <= SHORT_INDENT + 4,
            indented_little(bytes@, from as int, 0) == indented_little(
                bytes@,
                at as int,
                width as int,
            ),
        decreases bytes@.len() - at,
    {
        if bytes[at] == 32 {
            width = width + 1;
        } else {
            width = width + 4;
        }
        at = at + 1;
    }
    at < bytes.len() && width <= SHORT_INDENT && 33 <= bytes[at] && bytes[at] <= 126
}

/// Whether every line that begins in `from..=to` can be drawn.
fn lines_fit(bytes: &[u8], from: usize, to: usize) -> (res: bool)
    requires
        from <= bytes@.len(),
    ensures
        res == lines_drawable(bytes@, from as int, to as int),
{
    let mut at = from;
    while at < bytes.len() && at <= to
        invariant
            from <= at <= bytes@.len(),
            lines_drawable(bytes@, from as int, to as int) == lines_drawable(
                bytes@,
                at as int,
                to as int,
            ),
        decreases bytes@.len() - at,
    {
        let feed = find_feed(bytes, at);
        if feed - at > WHOLE_LINE && !little_indent(bytes, at) {
            return false;
        }
        if feed == bytes.len() {
            return true;
        }
        at = feed + 1;
    }
    true
}

impl Snippet {
    /// Whether mark `j` of the block is drawn as it stands.
    fn repeat_is_drawn(&self, j: usize) -> (res: bool)
        requires
            j < self.annotations.len(),
            forall|i: int|
                0 <= i < self.annotations.len() ==> (#[trigger] self@.annotations[i]).fits(
                    self.source@,
                ),
        ensures
            res == self@.repeat_fits(j as int),
    {
        broadcast use vstd::utf8::encode_utf8_valid_utf8;

        let source = self.source.as_str();
        let bytes = source.as_bytes();
        let mark = &self.annotations[j];
        proof {
            assert(self@.annotations[j as int] == mark@);
            assert(mark@.fits(self.source@));
        }
        let feed = find_feed(bytes, mark.start);
        if mark.end == 0 || feed >= mark.end - 1 || source.is_char_boundary(mark.end - 1) {
            return true;
        }
        let mut i: usize = 0;
        while i < j
            invariant
                i <= j < self.annotations.len(),
                mark@ == self@.annotations[j as int],
                seek(self@.bytes(), LINE_FEED, mark@.start) < mark@.end - 1,
                !is_char_boundary(self@.bytes(), mark@.end - 1),
                forall|k: int|
                    0 <= k < i ==> !((#[trigger] self@.annotations[k]).start == mark@.start
                        && self@.annotations[k].end == mark@.end),
            decreases j - i,
        {
            let other = &self.annotations[i];
            proof {
                assert(self@.annotations[i as int] == other@);
            }
            if other.start == mark.start && other.end == mark.end {
                return false;
            }
            i = i + 1;
        }
        true
    }

    /// The least start and the greatest end among the marks of a block that
    /// has some.
    fn marked(&self) -> (res: (usize, usize))
        requires
            self.annotations.len() > 0,
        ensures
            res.0 == least_start(self@.annotations, self.annotations.len() as int),
            res.1 == greatest_end(self@.annotations, self.annotations.len() as int),
            exists|i: int|
                0 <= i < self.annotations.len() && (#[trigger] self@.annotations[i]).start == res.0,
            exists|i: int|
                0 <= i < self.annotations.len() && (#[trigger] self@.annotations[i]).end == res.1,
    {
        let mut lo = self.annotations[0].start;
        let mut hi = self.annotations[0].end;
        let mut n: usize = 1;
        proof {
            assert(self@.annotations[0] == self.annotations[0]@);
        }
        while n < self.annotations.len()
            invariant
                1 <= n <= self.annotations.len(),
                lo == least_start(self@.annotations, n as int),
                hi == greatest_end(self@.annotations, n as int),
                exists|i: int| 0 <= i < n && (#[trigger] self@.annotations[i]).start == lo,
                exists|i: int| 0 <= i < n && (#[trigger] self@.annotations[i]).end == hi,
            decreases self.annotations.len() - n,
        {
            let mark = &self.annotations[n];
            proof {
                assert(self@.annotations[n as int] == mark@);
            }
            if mark.start < lo {
                lo = mark.start;
            }
            if mark.end > hi {
                hi = mark.end;
            }
            n = n + 1;
        }
        (lo, hi)
    }

    /// Whether the block can be drawn: every mark fits its text, a mark
    /// that repeats another is drawn as it stands, and every line that is
    /// drawn can be drawn.
    pub fn is_renderable(&self) -> (res: bool)
        ensures
            res == self@.renderable(),
    {
        broadcast use vstd::utf8::encode_utf8_valid_utf8;

        let source = self.source.as_str();
        let bytes = source.as_bytes();
        let mut i: usize = 0;
        while i < self.annotations.len()
            invariant
                i <= self.annotations.len(),
                source@ == self.source@,
                forall|k: int| 0 <= k < i ==> (#[trigger] self@.annotations[k]).fits(self.source@),
            decreases self.annotations.len() - i,
        {
            let mark = &self.annotations[i];
            proof {
                assert(self@.annotations[i as int] == mark@);
            }
            if mark.start > mark.end || !source.is_char_boundary(mark.start)
                || !source.is_char_boundary(mark.end) {
                return false;
            }
            i = i + 1;
        }
        let mut j: usize = 0;
        while j < self.annotations.len()
            invariant
                j <= self.annotations.len(),
                forall|k: int|
                    0 <= k < self.annotations.len() ==> (#[trigger] self@.annotations[k]).fits(
                        self.source@,
                    ),
                forall|k: int| 0 <= k < j ==> #[trigger] self@.repeat_fits(k),
            decreases self.annotations.len() - j,
        {
            if !self.repeat_is_drawn(j) {
                return false;
            }
            j = j + 1;
        }
        if self.fold && self.annotations.len() > 0 {
            let (lo, hi) = self.marked();
            let from = start_of_line(bytes, lo);
            let to = find_feed(bytes, hi);
            lines_fit(bytes, from, to)
        } else {
            lines_fit(bytes, 0, bytes.len())
        }
    }
}

impl Document {
    /// Whether every mark of the report fits the text of its block.
    pub fn is_renderable(&self) -> (res: bool)
        ensures
            res == self@.renderable(),
    {
        let mut i: usize = 0;
        while i < self.snippets.len()
            invariant
                i <= self.snippets.len(),
                forall|k: int| 0 <= k < i ==> (#[trigger] self@.snippets[k]).renderable(),
            decreases self.snippets.len() - i,
        {
            proof {
                assert(self@.snippets[i as int] == self.snippets[i as int]@);
            }
            if !self.snippets[i].is_renderable() {
                return false;
            }
            i = i + 1;
        }
        true
    }

    /// The report as text, with colours or without.
    pub fn render(&self, color: bool) -> (res: String)
        requires
            self@.renderable(),
        ensures
            rendering_of(self@, color, res@),
    {
        if color {
            render_styled(self)
        } else {
            render_plain(self)
        }
    }

    /// The report as text, where it can be drawn.
    pub fn try_render(&self, color: bool) -> (res: Option<String>)
        ensures
            res is Some <==> self@.renderable(),
            res matches Some(text) ==> rendering_of(self@, color, text@),
    {
        if self.is_renderable() {
            Some(self.render(color))
        } else {
            None
        }
    }
}

/// The mark that frame `i` of a chain leaves in its block. The outermost
/// frame is the primary mark and has no label, since its message is the
/// title; every other frame is a note that says its message.
pub open spec fn annotation_of(frames: Seq<Frame>, i: int) -> AnnotationView {
    AnnotationView {
        start: frames[i].span.start,
        end: frames[i].span.end,
        severity: if i == 0 {
            Severity::Primary
        } else {
            Severity::Note
        },
        label: if i == 0 {
            None
        } else {
            Some(frames[i].message)
        },
    }
}

/// The marks that the first `n` frames leave in the block of `file`, in the
/// order of the frames.
pub open spec fn annotations_in(frames: Seq<Frame>, file: Seq<char>, n: int) -> Seq<
    AnnotationView,
>
    decreases n,
{
    if n <= 0 {
        seq![]
    } else {
        let rest = annotations_in(frames, file, n - 1);
        if frames[n - 1].span.file == file {
            rest.push(annotation_of(frames, n - 1))
        } else {
            rest
        }
    }
}

/// The files that the first `n` frames speak of, each once, in the order
/// in which the chain first names them.
pub open spec fn files_of(frames: Seq<Frame>, n: int) -> Seq<Seq<char>>
    decreases n,
{
    if n <= 0 {
        seq![]
    } else {
        let rest = files_of(frames, n - 1);
        if rest.contains(frames[n - 1].span.file) {
            rest
        } else {
            rest.push(frames[n - 1].span.file)
        }
    }
}

/// The text of `file` among the first `n` of `sources`: that of the first
/// entry with this path, or no text where there is none.
pub open spec fn source_of(sources: Seq<SourceFileView>, file: Seq<char>, n: int) -> Seq<char>
    decreases n,
{
    if n <= 0 {
        Seq::<char>::empty()
    } else if exists|k: int| 0 <= k < n - 1 && (#[trigger] sources[k]).path == file {
        source_of(sources, file, n - 1)
    } else if sources[n - 1].path == file {
        sources[n - 1].contents
    } else {
        Seq::<char>::empty()
    }
}

/// Whether `sources` holds the text of `file`.
pub open spec fn has_source(sources: Seq<SourceFileView>, file: Seq<char>) -> bool {
    exists|k: int| 0 <= k < sources.len() && (#[trigger] sources[k]).path == file
}

/// What stands in a block in place of a text that could not be read.
pub open spec fn placeholder() -> Seq<char> {
    "(the text of this file could not be read)"@
}

impl AnnotationView {
    /// The same mark at the start of the text, for a block whose own text
    /// is not there to point into.
    pub open spec fn unplaced(self) -> AnnotationView {
        AnnotationView { start: 0, end: 0, ..self }
    }
}

/// The block of `file`: its text, folded, with every frame of the chain
/// that lies in it. Where `sources` does not hold the text, the block
/// shows the placeholder, and the marks stand at its start with their
/// labels.
pub open spec fn snippet_of(frames: Seq<Frame>, sources: Seq<SourceFileView>, file: Seq<char>)
    -> SnippetView {
    let marks = annotations_in(frames, file, frames.len() as int);
    if has_source(sources, file) {
        SnippetView {
            source: source_of(sources, file, sources.len() as int),
            origin: file,
            fold: true,
            annotations: marks,
        }
    } else {
        SnippetView {
            source: placeholder(),
            origin: file,
            fold: true,
            annotations: marks.map_values(|a: AnnotationView| a.unplaced()),
        }
    }
}

/// The report of a chain. Its title is the message of the outermost frame;
/// its first block is the file of that frame; each other file the chain
/// speaks of has one block of its own.
pub open spec fn document_of(frames: Seq<Frame>, sources: Seq<SourceFileView>) -> DocumentView {
    DocumentView {
        title: frames[0].message,
        snippets: files_of(frames, frames.len() as int).map_values(
            |file: Seq<char>| snippet_of(frames, sources, file),
        ),
    }
}

/// The report of one located value: `title` above the text of its file,
/// with the place of the value as the only mark. Where there is no text,
/// there is no mark either.
pub open spec fn report_of(span: SpanView, title: Seq<char>, source: Seq<char>) -> DocumentView {
    DocumentView {
        title,
        snippets: seq![
            SnippetView {
                source,
                origin: span.file,
                fold: true,
                annotations: if source.len() == 0 {
                    seq![]
                } else {
                    seq![
                        AnnotationView {
                            start: span.start,
                            end: span.end,
                            severity: Severity::Primary,
                            label: None,
                        },
                    ]
                },
            },
        ],
    }
}

impl<T> Spanned<T> {
    /// The report of this value: `title`, which says what the value is,
    /// above `source`, the text of its file, with the span marked in it.
    pub fn document(&self, title: String, source: String) -> (res: Document)
        ensures
            res@ == report_of(self.span@, title@, source@),
    {
        let mut annotations: Vec<Annotation> = Vec::new();
        if !source.as_str().is_empty() {
            let bytes = self.span.bytes();
            annotations.push(
                Annotation {
                    start: bytes.start,
                    end: bytes.end,
                    severity: Severity::Primary,
                    label: None,
                },
            );
        }
        let block = Snippet {
            source,
            origin: String::from_str(self.span.file()),
            fold: true,
            annotations,
        };
        let mut snippets: Vec<Snippet> = Vec::new();
        snippets.push(block);
        let res = Document { title, snippets };
        proof {
            assert(res@.snippets[0].annotations =~= report_of(
                self.span@,
                title@,
                source@,
            ).snippets[0].annotations);
            assert(res@.snippets =~= report_of(self.span@, title@, source@).snippets);
        }
        res
    }
}

/// The views of `sources`, in order.
pub open spec fn views_of(sources: Seq<SourceFile>) -> Seq<SourceFileView> {
    sources.map_values(|s: SourceFile| s@)
}

/// The text that `sources` holds for `file`, if they hold one.
fn lookup<'a>(sources: &'a Vec<SourceFile>, file: &str) -> (res: Option<&'a str>)
    ensures
        res is Some <==> has_source(views_of(sources@), file@),
        res matches Some(text) ==> text@ == source_of(
            views_of(sources@),
            file@,
            sources.len() as int,
        ),
{
    let mut i: usize = 0;
    while i < sources.len()
        invariant
            i <= sources.len(),
            forall|k: int| 0 <= k < i ==> (#[trigger] views_of(sources@)[k]).path != file@,
        decreases sources.len() - i,
    {
        if str_eq(sources[i].path.as_str(), file) {
            proof {
                lemma_source_found(views_of(sources@), file@, i as int, sources.len() as int);
                assert(views_of(sources@)[i as int].path == file@);
            }
            return Some(sources[i].contents.as_str());
        }
        i = i + 1;
    }
    None
}

/// Where entry `at` is the first with the path `file`, its text is what
/// `source_of` gives.
proof fn lemma_source_found(sources: Seq<SourceFileView>, file: Seq<char>, at: int, n: int)
    requires
        0 <= at < n <= sources.len(),
        sources[at].path == file,
        forall|k: int| 0 <= k < at ==> (#[trigger] sources[k]).path != file,
    ensures
        source_of(sources, file, n) == sources[at].contents,
    decreases n,
{
    if at < n - 1 {
        lemma_source_found(sources, file, at, n - 1);
    }
}

impl Error {
    /// The marks that the chain leaves in the block of `file`: at their own
    /// ranges where the text is there to point into, and at its start
    /// where it is not.
    fn annotations(links: &Vec<&Error>, file: &str, placed: bool, frames: Ghost<Seq<Frame>>) -> (res:
        Vec<Annotation>)
        requires
            links.len() == frames@.len(),
            forall|k: int| 0 <= k < links.len() ==> (#[trigger] links[k])@ == frames@.skip(k),
        ensures
            placed ==> res@.map_values(|a: Annotation| a@) == annotations_in(
                frames@,
                file@,
                frames@.len() as int,
            ),
            !placed ==> res@.map_values(|a: Annotation| a@) == annotations_in(
                frames@,
                file@,
                frames@.len() as int,
            ).map_values(|a: AnnotationView| a.unplaced()),
    {
        let mut out: Vec<Annotation> = Vec::new();
        let mut i: usize = 0;
        while i < links.len()
            invariant
                i <= links.len() == frames@.len(),
                forall|k: int| 0 <= k < links.len() ==> (#[trigger] links[k])@ == frames@.skip(k),
                placed ==> out@.map_values(|a: Annotation| a@) == annotations_in(
                    frames@,
                    file@,
                    i as int,
                ),
                !placed ==> out@.map_values(|a: Annotation| a@) == annotations_in(
                    frames@,
                    file@,
                    i as int,
                ).map_values(|a: AnnotationView| a.unplaced()),
            decreases links.len() - i,
        {
            let link = links[i];
            proof {
                assert(links[i as int]@[0] == frames@[i as int]);
            }
            if str_eq(link.span().file(), file) {
                let bytes = link.span().bytes();
                let start = if placed {
                    bytes.start
                } else {
                    0
                };
                let end = if placed {
                    bytes.end
                } else {
                    0
                };
                let ghost before = out@.map_values(|a: Annotation| a@);
                let ghost marks = annotations_in(frames@, file@, i as int);
                let mark = if i == 0 {
                    Annotation { start, end, severity: Severity::Primary, label: None }
                } else {
                    Annotation {
                        start,
                        end,
                        severity: Severity::Note,
                        label: Some(link.message().to_owned()),
                    }
                };
                out.push(mark);
                proof {
                    let made = annotation_of(frames@, i as int);
                    if placed {
                        assert(out@.map_values(|a: Annotation| a@) =~= before.push(made));
                    } else {
                        assert(out@.map_values(|a: Annotation| a@) =~= before.push(
                            made.unplaced(),
                        ));
                        assert(marks.push(made).map_values(|a: AnnotationView| a.unplaced())
                            =~= marks.map_values(|a: AnnotationView| a.unplaced()).push(
                            made.unplaced(),
                        ));
                    }
                }
            }
            i = i + 1;
        }
        out
    }

    /// The report of the chain over the text of its files. A file whose
    /// text `sources` does not hold gets a block that says so, with the
    /// labels of its frames.
    pub fn document(&self, sources: &Vec<SourceFile>) -> (res: Document)
        ensures
            res@ == document_of(self@, views_of(sources@)),
    {
        let links = self.links();
        let files = self.files();
        let ghost names = files_of(self@, self@.len() as int);
        let mut snippets: Vec<Snippet> = Vec::new();
        let mut f: usize = 0;
        while f < files.len()
            invariant
                f <= files.len() == names.len(),
                links.len() == self@.len(),
                forall|k: int| 0 <= k < links.len() ==> (#[trigger] links[k])@ == self@.skip(k),
                files@.map_values(|f: String| f@) == names,
                snippets.len() == f,
                forall|k: int|
                    0 <= k < f ==> (#[trigger] snippets[k])@ == snippet_of(
                        self@,
                        views_of(sources@),
                        names[k],
                    ),
            decreases files.len() - f,
        {
            proof {
                assert(files@.map_values(|f: String| f@)[f as int] == files[f as int]@);
            }
            let file = files[f].as_str();
            let found = lookup(sources, file);
            let annotations = Error::annotations(&links, file, found.is_some(), Ghost(self@));
            let source = match found {
                Some(text) => text.to_owned(),
                None => "(the text of this file could not be read)".to_owned(),
            };
            snippets.push(Snippet { source, origin: file.to_owned(), fold: true, annotations });
            f = f + 1;
        }
        let res = Document { title: self.message().to_owned(), snippets };
        proof {
            assert(res@.snippets =~= document_of(self@, views_of(sources@)).snippets);
        }
        res
    }

    /// The report of the chain as text, over the text of its files, where it
    /// can be drawn.
    pub fn render(&self, sources: &Vec<SourceFile>, color: bool) -> (res: Option<String>)
        ensures
            res is Some <==> document_of(self@, views_of(sources@)).renderable(),
            res matches Some(text) ==> rendering_of(
                document_of(self@, views_of(sources@)),
                color,
                text@,
            ),
            sources@.len() == 0 ==> res is Some,
    {
        proof {
            if sources@.len() == 0 {
                assert(views_of(sources@) =~= Seq::<SourceFileView>::empty());
                lemma_report_without_sources(self@);
            }
        }
        self.document(sources).try_render(color)
    }

    /// The report of the chain as text, with colours where the terminal and
    /// the environment ask for them.
    pub fn report(&self, sources: &Vec<SourceFile>) -> (res: Option<String>)
        ensures
            res is Some <==> document_of(self@, views_of(sources@)).renderable(),
            res matches Some(text) ==> exists|color: bool|
                #[trigger] rendering_of(document_of(self@, views_of(sources@)), color, text@),
            sources@.len() == 0 ==> res is Some,
    {
        self.render(sources, should_colorize())
    }

    /// The files that the chain speaks of, each once, in the order in which
    /// the chain first names them. These are the files whose text a report
    /// of the chain shows.
    pub fn files(&self) -> (res: Vec<String>)
        ensures
            res@.map_values(|f: String| f@) == files_of(self@, self@.len() as int),
    {
        let links = self.links();
        let mut out: Vec<String> = Vec::new();
        let mut i: usize = 0;
        while i < links.len()
            invariant
                i <= links.len() == self@.len(),
                forall|k: int| 0 <= k < links.len() ==> (#[trigger] links[k])@ == self@.skip(k),
                out@.map_values(|f: String| f@) == files_of(self@, i as int),
            decreases links.len() - i,
        {
            let file = links[i].span().file();
            let ghost before = out@.map_values(|f: String| f@);
            proof {
                assert(links[i as int]@[0] == self@[i as int]);
            }
            let mut known = false;
            let mut j: usize = 0;
            while j < out.len()
                invariant_except_break
                    !known,
                    forall|k: int| 0 <= k < j ==> before[k] != file@,
                invariant
                    j <= out.len(),
                    before == out@.map_values(|f: String| f@),
                ensures
                    known == before.contains(file@),
                decreases out.len() - j,
            {
                if str_eq(out[j].as_str(), file) {
                    proof {
                        assert(before[j as int] == file@);
                    }
                    known = true;
                    break ;
                }
                j = j + 1;
            }
            if !known {
                out.push(file.to_owned());
                proof {
                    assert(out@.map_values(|f: String| f@) =~= before.push(file@));
                }
            }
            i = i + 1;
        }
        out
    }
}

/// A text no longer than a line that is drawn whole has only lines that
/// can be drawn.
proof fn lemma_short_text_is_drawable(bytes: Seq<u8>, from: int, to: int)
    requires
        bytes.len() <= WHOLE_LINE,
    ensures
        lines_drawable(bytes, from, to),
    decreases bytes.len() - from,
{
    if 0 <= from < bytes.len() && from <= to {
        lemma_seek(bytes, LINE_FEED, from);
        let feed = seek(bytes, LINE_FEED, from);
        if feed < bytes.len() {
            lemma_short_text_is_drawable(bytes, feed + 1, to);
        }
    }
}

/// The block of a file whose text is missing can always be drawn: its
/// marks stand at the start of the placeholder, which is one short line.
pub proof fn lemma_placeholder_is_renderable(
    frames: Seq<Frame>,
    sources: Seq<SourceFileView>,
    file: Seq<char>,
)
    requires
        !has_source(sources, file),
    ensures
        snippet_of(frames, sources, file).renderable(),
{
    broadcast use {
        vstd::utf8::encode_utf8_valid_utf8,
        vstd::utf8::is_ascii_chars_encode_utf8,
    };

    reveal_strlit("(the text of this file could not be read)");
    let block = snippet_of(frames, sources, file);
    let bytes = block.bytes();
    assert(vstd::utf8::is_ascii_chars(placeholder()));
    assert(bytes.len() == placeholder().len());
    assert(is_char_boundary(bytes, 0));
    assert forall|j: int| 0 <= j < block.annotations.len() implies #[trigger] block.repeat_fits(
        j,
    ) by {
        lemma_seek(bytes, LINE_FEED, 0);
    }
    lemma_short_text_is_drawable(bytes, block.drawn_from(), block.drawn_to());
}

/// A chain can always be reported where no text of any file is at hand:
/// every block then shows the placeholder.
pub proof fn lemma_report_without_sources(frames: Seq<Frame>)
    ensures
        document_of(frames, Seq::<SourceFileView>::empty()).renderable(),
{
    let sources = Seq::<SourceFileView>::empty();
    let doc = document_of(frames, sources);
    let files = files_of(frames, frames.len() as int);
    assert forall|i: int| 0 <= i < doc.snippets.len() implies (
    #[trigger] doc.snippets[i]).renderable() by {
        lemma_placeholder_is_renderable(frames, sources, files[i]);
    }
}

/// The number of marks that the first `n` frames leave in the blocks of
/// the first `k` of `files`.
pub open spec fn marks_in(files: Seq<Seq<char>>, frames: Seq<Frame>, n: int, k: int) -> int
    decreases k,
{
    if k <= 0 {
        0
    } else {
        marks_in(files, frames, n, k - 1) + annotations_in(frames, files[k - 1], n).len()
    }
}

/// The list of files grows by at most one file with each frame, names the
/// file of every frame it has seen, and names no file twice.
pub proof fn lemma_files_of(frames: Seq<Frame>, n: int)
    requires
        0 <= n <= frames.len(),
    ensures
        files_of(frames, n).len() <= n,
        n > 0 ==> files_of(frames, n).len() >= 1 && files_of(frames, n)[0] == frames[0].span.file,
        forall|m: int| 0 <= m < n ==> files_of(frames, n).contains(#[trigger] frames[m].span.file),
        forall|i: int, j: int|
            0 <= i < j < files_of(frames, n).len() ==> files_of(frames, n)[i] != files_of(
                frames,
                n,
            )[j],
        forall|i: int|
            0 <= i < files_of(frames, n).len() ==> exists|m: int|
                0 <= m < n && frames[m].span.file == #[trigger] files_of(frames, n)[i],
    decreases n,
{
    if n > 0 {
        lemma_files_of(frames, n - 1);
        let rest = files_of(frames, n - 1);
        let all = files_of(frames, n);
        let file = frames[n - 1].span.file;
        if rest.contains(file) {
            assert forall|i: int| 0 <= i < all.len() implies exists|m: int|
                0 <= m < n && frames[m].span.file == #[trigger] all[i] by {
                let m = choose|m: int| 0 <= m < n - 1 && frames[m].span.file == rest[i];
                assert(0 <= m < n && frames[m].span.file == all[i]);
            }
        } else {
            assert(all[rest.len() as int] == file);
            assert forall|m: int| 0 <= m < n implies all.contains(
                #[trigger] frames[m].span.file,
            ) by {
                if m < n - 1 {
                    let at = choose|at: int|
                        0 <= at < rest.len() && rest[at] == frames[m].span.file;
                    assert(all[at] == frames[m].span.file);
                } else {
                    assert(all[rest.len() as int] == frames[m].span.file);
                }
            }
            assert forall|i: int| 0 <= i < all.len() implies exists|m: int|
                0 <= m < n && frames[m].span.file == #[trigger] all[i] by {
                if i < rest.len() {
                    let m = choose|m: int| 0 <= m < n - 1 && frames[m].span.file == rest[i];
                    assert(0 <= m < n && frames[m].span.file == all[i]);
                } else {
                    assert(0 <= n - 1 < n && frames[n - 1].span.file == all[i]);
                }
            }
        }
    }
}

/// A file that no frame lies in has no mark.
proof fn lemma_no_marks(frames: Seq<Frame>, file: Seq<char>, n: int)
    requires
        0 <= n <= frames.len(),
        forall|m: int| 0 <= m < n ==> (#[trigger] frames[m]).span.file != file,
    ensures
        annotations_in(frames, file, n).len() == 0,
    decreases n,
{
    if n > 0 {
        lemma_no_marks(frames, file, n - 1);
    }
}

/// One more frame adds one mark to the blocks of `files` if its file is
/// among them, and none otherwise, where `files` names no file twice.
proof fn lemma_marks_step(files: Seq<Seq<char>>, frames: Seq<Frame>, n: int, k: int)
    requires
        0 < n <= frames.len(),
        0 <= k <= files.len(),
        forall|i: int, j: int| 0 <= i < j < files.len() ==> files[i] != files[j],
    ensures
        marks_in(files, frames, n, k) == marks_in(files, frames, n - 1, k) + if files.take(
            k,
        ).contains(frames[n - 1].span.file) {
            1int
        } else {
            0int
        },
    decreases k,
{
    let file = frames[n - 1].span.file;
    if k > 0 {
        lemma_marks_step(files, frames, n, k - 1);
        let before = files.take(k - 1);
        let upto = files.take(k);
        if before.contains(file) {
            let at = choose|at: int| 0 <= at < before.len() && before[at] == file;
            assert(upto[at] == file);
            assert(files[at] != files[k - 1]);
        } else if files[k - 1] == file {
            assert(upto[k - 1] == file);
        } else {
            if upto.contains(file) {
                let at = choose|at: int| 0 <= at < upto.len() && upto[at] == file;
                assert(before[at] == file);
            }
        }
    }
}

/// The marks in the first `k` blocks depend on the first `k` files only.
proof fn lemma_marks_prefix(a: Seq<Seq<char>>, b: Seq<Seq<char>>, frames: Seq<Frame>, n: int, k: int)
    requires
        0 <= k <= a.len(),
        k <= b.len(),
        a.take(k) == b.take(k),
    ensures
        marks_in(a, frames, n, k) == marks_in(b, frames, n, k),
    decreases k,
{
    if k > 0 {
        assert(a.take(k - 1) =~= a.take(k).take(k - 1));
        assert(b.take(k - 1) =~= b.take(k).take(k - 1));
        lemma_marks_prefix(a, b, frames, n, k - 1);
        assert(a[k - 1] == a.take(k)[k - 1]);
        assert(b[k - 1] == b.take(k)[k - 1]);
    }
}

/// The first `n` frames leave `n` marks in the blocks of their files.
proof fn lemma_marks_total(frames: Seq<Frame>, n: int)
    requires
        0 <= n <= frames.len(),
    ensures
        marks_in(files_of(frames, n), frames, n, files_of(frames, n).len() as int) == n,
    decreases n,
{
    if n > 0 {
        lemma_marks_total(frames, n - 1);
        lemma_files_of(frames, n - 1);
        lemma_files_of(frames, n);
        let rest = files_of(frames, n - 1);
        let all = files_of(frames, n);
        let file = frames[n - 1].span.file;
        let k = rest.len() as int;
        assert(rest.take(k) =~= rest);
        if rest.contains(file) {
            lemma_marks_step(rest, frames, n, k);
        } else {
            assert(all.take(k) =~= rest);
            lemma_marks_step(all, frames, n, k);
            lemma_marks_prefix(all, rest, frames, n - 1, k);
            assert forall|m: int| 0 <= m < n - 1 implies (#[trigger] frames[m]).span.file
                != file by {
                assert(rest.contains(frames[m].span.file));
            }
            lemma_no_marks(frames, file, n - 1);
        }
    }
}

/// The marks of the first `k` blocks of a report are the marks that the
/// frames leave in the first `k` files.
proof fn lemma_document_marks_in(frames: Seq<Frame>, sources: Seq<SourceFileView>, k: int)
    requires
        0 <= k <= files_of(frames, frames.len() as int).len(),
    ensures
        document_of(frames, sources).marks(k) == marks_in(
            files_of(frames, frames.len() as int),
            frames,
            frames.len() as int,
            k,
        ),
    decreases k,
{
    if k > 0 {
        lemma_document_marks_in(frames, sources, k - 1);
    }
}

/// A report marks every frame of its chain once: it holds as many marks
/// as the chain has frames. Frames in one file share one block, so that no
/// two blocks show the same file; the first block shows the file of the
/// outermost frame, and every frame finds the block of its file.
pub proof fn lemma_document_marks(frames: Seq<Frame>, sources: Seq<SourceFileView>)
    requires
        frames.len() >= 1,
    ensures
        ({
            let doc = document_of(frames, sources);
            &&& doc.title == frames[0].message
            &&& doc.marks(doc.snippets.len() as int) == frames.len()
            &&& 1 <= doc.snippets.len() <= frames.len()
            &&& doc.snippets[0].origin == frames[0].span.file
            &&& forall|i: int, j: int|
                0 <= i < j < doc.snippets.len() ==> doc.snippets[i].origin
                    != doc.snippets[j].origin
            &&& forall|m: int|
                0 <= m < frames.len() ==> exists|i: int|
                    0 <= i < doc.snippets.len() && (#[trigger] doc.snippets[i]).origin == (
                    #[trigger] frames[m]).span.file
        }),
{
    let n = frames.len() as int;
    let doc = document_of(frames, sources);
    let files = files_of(frames, n);
    lemma_files_of(frames, n);
    lemma_marks_total(frames, n);
    lemma_document_marks_in(frames, sources, files.len() as int);
    assert forall|m: int| 0 <= m < frames.len() implies exists|i: int|
        0 <= i < doc.snippets.len() && (#[trigger] doc.snippets[i]).origin == (
        #[trigger] frames[m]).span.file by {
        assert(files.contains(frames[m].span.file));
        let at = choose|at: int| 0 <= at < files.len() && files[at] == frames[m].span.file;
        assert(doc.snippets[at].origin == frames[m].span.file);
    }
}

/// The marks in the block of a file are the frames that lie in it, in the
/// order of the chain: as many as there are such frames.
pub proof fn lemma_block_marks(frames: Seq<Frame>, file: Seq<char>, n: int)
    requires
        0 <= n <= frames.len(),
    ensures
        annotations_in(frames, file, n).len() == frames.take(n).filter(
            |f: Frame| f.span.file == file,
        ).len(),
    decreases n,
{
    if n > 0 {
        lemma_block_marks(frames, file, n - 1);
        assert(frames.take(n).drop_last() =~= frames.take(n - 1));
        reveal(Seq::filter);
    }
}

} // verus!
