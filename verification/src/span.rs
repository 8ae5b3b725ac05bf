//! A byte range inside one named source file, and the moves that shrink it.

use std::ops::Range;
use vstd::prelude::*;

verus! {

/// What a [`Span`] stands for: a file name and the byte range `start..end` in it.
pub struct SpanView {
    pub file: Seq<char>,
    pub start: int,
    pub end: int,
}

impl SpanView {
    /// The number of bytes the range covers.
    pub open spec fn len(self) -> int {
        self.end - self.start
    }

    /// The range is ordered and its offsets fit the 32 bits a span stores.
    pub open spec fn wf(self) -> bool {
        0 <= self.start <= self.end <= u32::MAX
    }

    /// The reserved value that points at no file.
    pub open spec fn dummy() -> SpanView {
        SpanView { file: Seq::<char>::empty(), start: u32::MAX as int, end: u32::MAX as int }
    }

    /// Every byte of `self` is a byte of `outer`, in the same file.
    pub open spec fn within(self, outer: SpanView) -> bool {
        self.file == outer.file && outer.start <= self.start && self.end <= outer.end
    }
}

/// A handle to the bytes `start..end` of one source file. The file is never
/// opened by a span; only its name is kept.
#[derive(Ord, Debug)]
pub struct Span {
    file: String,
    start: u32,
    end: u32,
}

impl View for Span {
    type V = SpanView;

    closed spec fn view(&self) -> SpanView {
        SpanView { file: self.file@, start: self.start as int, end: self.end as int }
    }
}

impl Span {
    #[verifier::type_invariant]
    pub closed spec fn ordered(&self) -> bool {
        self.start <= self.end
    }

    /// A span over `bytes` of the file named `path`.
    pub fn new(path: &str, bytes: Range<usize>) -> (res: Span)
        requires
            bytes.start <= bytes.end <= u32::MAX,
        ensures
            res@ == (SpanView { file: path@, start: bytes.start as int, end: bytes.end as int }),
            res@.wf(),
    {
        Span { file: path.to_owned(), start: bytes.start as u32, end: bytes.end as u32 }
    }

    /// Whether this is the dummy span, the one that points at no file: it
    /// has no file name, and both offsets hold the reserved value.
    pub fn is_dummy(&self) -> (res: bool)
        ensures
            res == (self@ == SpanView::dummy()),
            self@.wf(),
    {
        proof {
            use_type_invariant(self);
            if self.file@.len() == 0 {
                assert(self.file@ =~= Seq::<char>::empty());
            }
        }
        self.file.as_str().is_empty() && self.start == u32::MAX && self.end == u32::MAX
    }

    /// Moves the end `amount` bytes towards the start.
    pub fn dec_col_end(self, amount: usize) -> (res: Span)
        requires
            amount <= self@.len(),
        ensures
            res@ == (SpanView { end: self@.end - amount, ..self@ }),
            res@.wf(),
    {
        proof {
            use_type_invariant(&self);
        }
        let end: u32 = self.end - amount as u32;
        Span { file: self.file, start: self.start, end }
    }

    /// Moves the start `amount` bytes towards the end.
    pub fn inc_col_start(self, amount: usize) -> (res: Span)
        requires
            amount <= self@.len(),
        ensures
            res@ == (SpanView { start: self@.start + amount, ..self@ }),
            res@.wf(),
    {
        proof {
            use_type_invariant(&self);
        }
        let start: u32 = self.start + amount as u32;
        Span { file: self.file, start, end: self.end }
    }

    /// Puts the end `amount` bytes after the start.
    pub fn set_col_end_relative_to_start(self, amount: usize) -> (res: Span)
        requires
            amount <= self@.len(),
        ensures
            res@ == (SpanView { end: self@.start + amount, ..self@ }),
            res@.wf(),
    {
        proof {
            use_type_invariant(&self);
        }
        let end: u32 = self.start + amount as u32;
        Span { file: self.file, start: self.start, end }
    }

    /// The empty span at the end of `self`.
    pub fn shrink_to_end(self) -> (res: Span)
        ensures
            res@ == (SpanView { start: self@.end, ..self@ }),
            res@.wf(),
    {
        proof {
            use_type_invariant(&self);
        }
        Span { file: self.file, start: self.end, end: self.end }
    }

    /// The empty span at the start of `self`.
    pub fn shrink_to_start(self) -> (res: Span)
        ensures
            res@ == (SpanView { end: self@.start, ..self@ }),
            res@.wf(),
    {
        proof {
            use_type_invariant(&self);
        }
        Span { file: self.file, start: self.start, end: self.start }
    }

    /// The name of the file the span points into.
    pub fn file(&self) -> (res: &str)
        ensures
            res@ == self@.file,
    {
        self.file.as_str()
    }

    /// The byte range the span covers.
    pub fn bytes(&self) -> (res: Range<usize>)
        ensures
            res.start == self@.start,
            res.end == self@.end,
            self@.wf(),
    {
        proof {
            use_type_invariant(self);
        }
        (self.start as usize)..(self.end as usize)
    }

    /// The number of bytes the span covers.
    pub fn len(&self) -> (res: usize)
        ensures
            res == self@.len(),
            self@.wf(),
    {
        proof {
            use_type_invariant(self);
        }
        (self.end - self.start) as usize
    }
}

impl Clone for Span {
    fn clone(&self) -> (res: Span)
        ensures
            res@ == self@,
            res@.wf(),
    {
        proof {
            use_type_invariant(self);
        }
        Span { file: self.file.clone(), start: self.start, end: self.end }
    }
}

impl Default for Span {
    /// The default span is the dummy span.
    fn default() -> (res: Span)
        ensures
            res@ == SpanView::dummy(),
            res@.wf(),
    {
        Span { file: String::new(), start: u32::MAX, end: u32::MAX }
    }
}

impl PartialEq for Span {
    /// Two spans are equal when they name the same file and the same range.
    fn eq(&self, other: &Span) -> (res: bool) {
        self.file == other.file && self.start == other.start && self.end == other.end
    }
}

impl vstd::std_specs::cmp::PartialEqSpecImpl for Span {
    open spec fn obeys_eq_spec() -> bool {
        true
    }

    open spec fn eq_spec(&self, other: &Span) -> bool {
        self@ == other@
    }
}

impl Eq for Span {

}

} // verus!
