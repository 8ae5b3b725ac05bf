//! Where a span begins, in the terms a reader uses: the line and the
//! column, found again in the text of the file each time they are asked for.

use crate::bytes::line_ranges;
use crate::order::{lemma_span_order_total, span_order, Order};
use crate::span::{Span, SpanView};
use crate::spanned::Spanned;
use crate::text::byte_len;
use vstd::prelude::*;
use vstd::string::StringExecFns;
use vstd::utf8::{decode_utf8, encode_utf8, encode_utf8_decode_utf8, valid_utf8};

verus! {

/// What can be said of the place where a span begins.
#[derive(Clone, Copy, PartialEq, Eq, Structural, Debug)]
pub enum Position {
    /// The span points at no file.
    Dummy,
    /// Only the file is known.
    File,
    /// The line is known, counted from 1.
    Line { line: usize },
    /// The line and the column are known, both counted from 1, the column
    /// in characters.
    LineColumn { line: usize, column: usize },
}

/// The first of the first `n` lines that holds the byte `offset`, if one does.
pub open spec fn line_at(ranges: Seq<(int, int)>, offset: int, n: int) -> Option<int>
    decreases n,
{
    if n <= 0 {
        None
    } else {
        match line_at(ranges, offset, n - 1) {
            Some(line) => Some(line),
            None => if ranges[n - 1].0 <= offset < ranges[n - 1].1 {
                Some(n - 1)
            } else {
                None
            },
        }
    }
}

/// The first of the first `n` characters of `text` that begins at byte
/// `offset` of it, if one does.
pub open spec fn column_at(text: Seq<char>, offset: int, n: int) -> Option<int>
    decreases n,
{
    if n <= 0 {
        None
    } else {
        match column_at(text, offset, n - 1) {
            Some(column) => Some(column),
            None => if byte_len(text.take(n - 1)) == offset {
                Some(n - 1)
            } else {
                None
            },
        }
    }
}

/// The place where `span` begins in the bytes of its file. The dummy span
/// has none. Without the bytes, or with more of them than a span can
/// count, only the file is known. The line is the first one that
/// holds the first byte of the span; the column is known where that line
/// is UTF-8 and one of its characters begins at that byte.
pub open spec fn locate(span: SpanView, contents: Option<Seq<u8>>) -> Position {
    if span == SpanView::dummy() {
        Position::Dummy
    } else {
        match contents {
            None => Position::File,
            Some(bytes) => {
                let ranges = line_ranges(bytes, 0);
                if bytes.len() > u32::MAX {
                    Position::File
                } else {
                    match line_at(ranges, span.start, ranges.len() as int) {
                        None => Position::File,
                        Some(l) => {
                            let line = bytes.subrange(ranges[l].0, ranges[l].1);
                            let text = decode_utf8(line);
                            if !valid_utf8(line) {
                                Position::Line { line: (l + 1) as usize }
                            } else {
                                match column_at(
                                    text,
                                    span.start - ranges[l].0,
                                    text.len() as int,
                                ) {
                                    None => Position::Line { line: (l + 1) as usize },
                                    Some(c) => Position::LineColumn {
                                        line: (l + 1) as usize,
                                        column: (c + 1) as usize,
                                    },
                                }
                            }
                        },
                    }
                }
            },
        }
    }
}

/// The span of what stands in `file` from `column` of `line` to the end of
/// that line, both counted from 1 and the column in characters. Without
/// the bytes of the file, with more of them than a span can count, or
/// without such a line, it is the empty span at the start of the file;
/// where the line is not UTF-8 or has no such column, it is the whole line.
pub open spec fn caller_span(
    file: Seq<char>,
    contents: Option<Seq<u8>>,
    line: int,
    column: int,
) -> SpanView {
    let nowhere = SpanView { file, start: 0, end: 0 };
    match contents {
        None => nowhere,
        Some(bytes) => {
            let ranges = line_ranges(bytes, 0);
            if bytes.len() > u32::MAX || line < 1 || line > ranges.len() {
                nowhere
            } else {
                let (from, to) = ranges[line - 1];
                let raw = bytes.subrange(from, to);
                let text = decode_utf8(raw);
                if !valid_utf8(raw) || column < 1 || column > text.len() {
                    SpanView { file, start: from, end: to }
                } else {
                    SpanView { file, start: from + byte_len(text.take(column - 1)), end: to }
                }
            }
        },
    }
}

/// The character of the decimal digit `d`.
pub open spec fn digit(d: int) -> char {
    if d == 0 {
        '0'
    } else if d == 1 {
        '1'
    } else if d == 2 {
        '2'
    } else if d == 3 {
        '3'
    } else if d == 4 {
        '4'
    } else if d == 5 {
        '5'
    } else if d == 6 {
        '6'
    } else if d == 7 {
        '7'
    } else if d == 8 {
        '8'
    } else {
        '9'
    }
}

/// The number `n` in decimal digits, without leading zeros.
pub open spec fn decimal(n: nat) -> Seq<char>
    decreases n,
{
    if n < 10 {
        seq![digit(n as int)]
    } else {
        decimal(n / 10).push(digit((n % 10) as int))
    }
}

/// The words that stand for the place of the dummy span.
pub open spec fn dummy_text() -> Seq<char> {
    seq!['D', 'U', 'M', 'M', 'Y', '_', 'S', 'P', 'A', 'N']
}

/// A place as text: the file, then the line and the column as far as they
/// are known, each after a colon.
pub open spec fn position_text(file: Seq<char>, place: Position) -> Seq<char> {
    match place {
        Position::Dummy => dummy_text(),
        Position::File => file,
        Position::Line { line } => file + seq![':'] + decimal(line as nat),
        Position::LineColumn { line, column } => file + seq![':'] + decimal(line as nat) + seq![
            ':',
        ] + decimal(column as nat),
    }
}

/// The bytes that `contents` holds, if it holds any.
pub open spec fn bytes_of(contents: Option<&[u8]>) -> Option<Seq<u8>> {
    match contents {
        Some(bytes) => Some(bytes@),
        None => None,
    }
}

impl Span {
    /// A span that points into the source of the program itself: at what
    /// stands in `file` from `column` of `line` on, as the compiler counts
    /// them for a caller. `contents` holds the bytes of that file, or `None`
    /// where it cannot be read.
    pub fn here(file: &str, contents: Option<&[u8]>, line: usize, column: usize) -> (res: Span)
        ensures
            res@ == caller_span(file@, bytes_of(contents), line as int, column as int),
            res@.wf(),
    {
        broadcast use encode_utf8_decode_utf8;

        let bytes = match contents {
            None => {
                return Span::new(file, 0..0);
            },
            Some(bytes) => bytes,
        };
        if bytes.len() > u32::MAX as usize || line < 1 {
            return Span::new(file, 0..0);
        }
        let whole = Spanned { span: Span::new(file, 0..bytes.len()), content: bytes };
        let lines = whole.lines();
        if line > lines.len() {
            return Span::new(file, 0..0);
        }
        let found = &lines[line - 1];
        proof {
            let ranges = line_ranges(bytes@, 0);
            assert(whole.located().lines()[line - 1] == whole.located().piece(
                ranges[line - 1].0,
                ranges[line - 1].1,
            ));
        }
        let text = match (Spanned { span: found.span.clone(), content: found.content }).to_str() {
            Err(_) => {
                return found.span.clone();
            },
            Ok(text) => text,
        };
        proof {
            assert(decode_utf8(encode_utf8(text.content@)) == text.content@);
        }
        let chars = text.chars();
        if column < 1 || column > chars.len() {
            return found.span.clone();
        }
        let at = chars[column - 1].span.bytes().start - found.span.bytes().start;
        proof {
            crate::text::lemma_encode_parts(text.content@, column - 1);
        }
        found.span.clone().inc_col_start(at)
    }

    /// The place where the span begins, looked up in `contents`, the bytes
    /// of its file as they are now, or `None` where the file cannot be read.
    #[verifier::loop_isolation(false)]
    pub fn position(&self, contents: Option<&[u8]>) -> (res: Position)
        ensures
            res == locate(self@, bytes_of(contents)),
    {
        if self.is_dummy() {
            return Position::Dummy;
        }
        let bytes = match contents {
            None => {
                return Position::File;
            },
            Some(bytes) => bytes,
        };
        if bytes.len() > u32::MAX as usize {
            return Position::File;
        }
        let start = self.bytes().start;
        let whole = Spanned { span: Span::new(self.file(), 0..bytes.len()), content: bytes };
        let lines = whole.lines();
        let ghost ranges = line_ranges(bytes@, 0);
        let mut l: usize = 0;
        while l < lines.len()
            invariant
                l <= lines.len() == ranges.len(),
                ranges == line_ranges(bytes@, 0),
                whole.content@ == bytes@,
                whole.located().lines().len() == ranges.len(),
                forall|i: int|
                    0 <= i < lines.len() ==> (#[trigger] lines[i]).located()
                        == whole.located().lines()[i] && lines[i].located().exact(),
                whole.span@.start == 0,
                start == self@.start,
                line_at(ranges, start as int, l as int) is None,
            decreases lines.len() - l,
        {
            let line = &lines[l];
            proof {
                assert(whole.located().lines()[l as int] == whole.located().piece(
                    ranges[l as int].0,
                    ranges[l as int].1,
                ));
            }
            let range = line.span.bytes();
            if range.start <= start && start < range.end {
                proof {
                    lemma_line_at_found(ranges, start as int, l as int, ranges.len() as int);
                }
                return self.column(line, l);
            }
            l = l + 1;
        }
        Position::File
    }

    /// The line and, where it can be found, the column at which the span
    /// begins in `line`, the line of index `l` of its file.
    #[verifier::loop_isolation(false)]
    fn column(&self, line: &Spanned<&[u8]>, l: usize) -> (res: Position)
        requires
            line.span@.wf(),
            line.span@.len() == line.content@.len(),
            l < usize::MAX,
        ensures
            res == if !valid_utf8(line.content@) {
                Position::Line { line: (l + 1) as usize }
            } else {
                match column_at(
                    decode_utf8(line.content@),
                    self@.start - line.span@.start,
                    decode_utf8(line.content@).len() as int,
                ) {
                    None => Position::Line { line: (l + 1) as usize },
                    Some(c) => Position::LineColumn {
                        line: (l + 1) as usize,
                        column: (c + 1) as usize,
                    },
                }
            },
    {
        broadcast use encode_utf8_decode_utf8;

        let start = self.bytes().start;
        let text = match (Spanned { span: line.span.clone(), content: line.content }).to_str() {
            Err(_) => {
                return Position::Line { line: l + 1 };
            },
            Ok(text) => text,
        };
        proof {
            assert(decode_utf8(encode_utf8(text.content@)) == text.content@);
        }
        let chars = text.chars();
        let mut c: usize = 0;
        while c < chars.len()
            invariant
                c <= chars.len() == text.content@.len(),
                l < usize::MAX,
                text.span@ == line.span@,
                start == self@.start,
                forall|i: int|
                    0 <= i < chars.len() ==> (#[trigger] chars[i]).span@ == text.located().point(i),
                column_at(text.content@, start - line.span@.start, c as int) is None,
            decreases chars.len() - c,
        {
            if chars[c].span.bytes().start == start {
                proof {
                    lemma_column_at_found(
                        text.content@,
                        start - line.span@.start,
                        c as int,
                        text.content@.len() as int,
                    );
                }
                return Position::LineColumn { line: l + 1, column: c + 1 };
            }
            c = c + 1;
        }
        Position::Line { line: l + 1 }
    }

    /// The place where the span begins, as text: `file:line:column`, or
    /// `file:line`, or the file alone, as far as [`Span::position`] finds
    /// it; and for the dummy span the words `DUMMY_SPAN`.
    pub fn display(&self, contents: Option<&[u8]>) -> (res: String)
        ensures
            res@ == position_text(self@.file, locate(self@, bytes_of(contents))),
    {
        proof {
            reveal_strlit("DUMMY_SPAN");
            reveal_strlit(":");
        }
        match self.position(contents) {
            Position::Dummy => {
                let res = String::from_str("DUMMY_SPAN");
                proof {
                    assert(res@ =~= dummy_text());
                }
                res
            },
            Position::File => String::from_str(self.file()),
            Position::Line { line } => {
                let res = String::from_str(self.file()).concat(":").concat(
                    decimal_text(line).as_str(),
                );
                proof {
                    assert(":"@ =~= seq![':']);
                }
                res
            },
            Position::LineColumn { line, column } => {
                let res = String::from_str(self.file()).concat(":").concat(
                    decimal_text(line).as_str(),
                ).concat(":").concat(decimal_text(column).as_str());
                proof {
                    assert(":"@ =~= seq![':']);
                }
                res
            },
        }
    }
}

/// The text of one decimal digit.
fn digit_text(d: usize) -> (res: &'static str)
    requires
        d < 10,
    ensures
        res@ == seq![digit(d as int)],
{
    proof {
        reveal_strlit("0");
        reveal_strlit("1");
        reveal_strlit("2");
        reveal_strlit("3");
        reveal_strlit("4");
        reveal_strlit("5");
        reveal_strlit("6");
        reveal_strlit("7");
        reveal_strlit("8");
        reveal_strlit("9");
    }
    let res = if d == 0 {
        "0"
    } else if d == 1 {
        "1"
    } else if d == 2 {
        "2"
    } else if d == 3 {
        "3"
    } else if d == 4 {
        "4"
    } else if d == 5 {
        "5"
    } else if d == 6 {
        "6"
    } else if d == 7 {
        "7"
    } else if d == 8 {
        "8"
    } else {
        "9"
    };
    proof {
        assert(res@ =~= seq![digit(d as int)]);
    }
    res
}

/// The number `n` in decimal digits.
pub fn decimal_text(n: usize) -> (res: String)
    ensures
        res@ == decimal(n as nat),
    decreases n,
{
    if n < 10 {
        String::from_str(digit_text(n))
    } else {
        let res = decimal_text(n / 10).concat(digit_text(n % 10));
        proof {
            assert(res@ =~= decimal((n / 10) as nat).push(digit((n % 10) as int)));
        }
        res
    }
}

/// The dummy span equals no span but itself, and has no place in any
/// file: whatever the bytes it is looked up in, neither a file nor a line
/// nor a column is found for it. Every other span has the place of a span
/// in a file, which is never the place of the dummy span.
pub proof fn lemma_dummy_is_nowhere(other: SpanView, contents: Option<Seq<u8>>)
    ensures
        other == SpanView::dummy() <==> other.file.len() == 0 && other.start == u32::MAX
            && other.end == u32::MAX,
        span_order(SpanView::dummy(), other) == Order::Same <==> other == SpanView::dummy(),
        locate(SpanView::dummy(), contents) == Position::Dummy,
        position_text(SpanView::dummy().file, locate(SpanView::dummy(), contents)) == dummy_text(),
        locate(other, contents) == Position::Dummy <==> other == SpanView::dummy(),
        other.file.len() > 0 || other.start < u32::MAX || other.end < u32::MAX ==> other
            != SpanView::dummy(),
{
    lemma_span_order_total(SpanView::dummy(), other, other);
    if other.file.len() == 0 {
        assert(other.file =~= Seq::<char>::empty());
    }
}

/// Where line `at` holds the byte and none before it does, it is the line
/// that `line_at` gives.
proof fn lemma_line_at_found(ranges: Seq<(int, int)>, offset: int, at: int, n: int)
    requires
        0 <= at < n <= ranges.len(),
        ranges[at].0 <= offset < ranges[at].1,
        line_at(ranges, offset, at) is None,
    ensures
        line_at(ranges, offset, n) == Some(at),
    decreases n,
{
    if at < n - 1 {
        lemma_line_at_found(ranges, offset, at, n - 1);
    }
}

/// Where character `at` begins at the byte and none before it does, it is
/// the character that `column_at` gives.
proof fn lemma_column_at_found(text: Seq<char>, offset: int, at: int, n: int)
    requires
        0 <= at < n <= text.len(),
        byte_len(text.take(at)) == offset,
        column_at(text, offset, at) is None,
    ensures
        column_at(text, offset, n) == Some(at),
    decreases n,
{
    if at < n - 1 {
        lemma_column_at_found(text, offset, at, n - 1);
    }
}

} // verus!
