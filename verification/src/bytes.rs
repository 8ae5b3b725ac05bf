//! Spanned byte strings: text that need not be UTF-8, cut into lines and
//! handed on as spanned text where it is.

use crate::span::SpanView;
use crate::spanned::Spanned;
use crate::text::{
    find, first_at, lemma_first_at_unique, lemma_seek, occurs_at, seek, starts_with, str_len,
};
use bstr::ByteSlice;
use vstd::prelude::*;
use vstd::slice::slice_subrange;
use vstd::utf8::{encode_utf8, valid_utf8};

verus! {

/// What a spanned byte string stands for: its bytes and where they lie.
pub struct LocatedBytes {
    pub span: SpanView,
    pub bytes: Seq<u8>,
}

impl LocatedBytes {
    /// The span is at least as long as the bytes.
    pub open spec fn fits(self) -> bool {
        self.span.wf() && self.bytes.len() <= self.span.len()
    }

    /// The span covers the bytes and nothing else.
    pub open spec fn exact(self) -> bool {
        self.span.wf() && self.bytes.len() == self.span.len()
    }

    /// The bytes `from..to` of `self`, with their span.
    pub open spec fn piece(self, from: int, to: int) -> LocatedBytes {
        LocatedBytes {
            span: SpanView {
                start: self.span.start + from,
                end: self.span.start + to,
                ..self.span
            },
            bytes: self.bytes.subrange(from, to),
        }
    }

    /// The lines of `self`, none of them holding the terminator that ends it.
    pub open spec fn lines(self) -> Seq<LocatedBytes> {
        line_ranges(self.bytes, 0).map_values(|r: (int, int)| self.piece(r.0, r.1))
    }

    /// `self` without the prefix `p`, if its bytes begin with it.
    pub open spec fn strip_prefix(self, p: Seq<u8>) -> Option<LocatedBytes> {
        if starts_with(self.bytes, p) {
            Some(
                LocatedBytes {
                    span: SpanView { start: self.span.start + p.len(), ..self.span },
                    bytes: self.bytes.skip(p.len() as int),
                },
            )
        } else {
            None
        }
    }

    /// The parts of `self` before and after the first place where
    /// `splitter` stands, neither of them holding it.
    pub open spec fn split_once(self, splitter: Seq<u8>) -> Option<(LocatedBytes, LocatedBytes)> {
        match find(self.bytes, splitter) {
            None => None,
            Some(at) => Some(
                (
                    LocatedBytes {
                        span: SpanView { end: self.span.start + at, ..self.span },
                        bytes: self.bytes.take(at),
                    },
                    LocatedBytes {
                        span: SpanView {
                            start: self.span.start + at + splitter.len(),
                            ..self.span
                        },
                        bytes: self.bytes.skip(at + splitter.len()),
                    },
                ),
            ),
        }
    }
}

/// The byte that ends a line.
pub const LINE_FEED: u8 = 10;

/// The byte that may stand before a line feed and then belongs to the terminator.
pub const CARRIAGE_RETURN: u8 = 13;

/// The lines of `bytes` from index `from` on, each as the range of its
/// bytes. A line ends before a line feed, or before the carriage return
/// that stands directly in front of one; the last line may end with the
/// bytes. What follows the last line feed is a line only if it is not empty.
pub open spec fn line_ranges(bytes: Seq<u8>, from: int) -> Seq<(int, int)>
    decreases bytes.len() - from,
    via line_ranges_decreases
{
    if from < 0 || from >= bytes.len() {
        seq![]
    } else {
        let feed = seek(bytes, LINE_FEED, from);
        if feed >= bytes.len() {
            seq![(from, bytes.len() as int)]
        } else if feed > from && bytes[feed - 1] == CARRIAGE_RETURN {
            seq![(from, feed - 1)] + line_ranges(bytes, feed + 1)
        } else {
            seq![(from, feed)] + line_ranges(bytes, feed + 1)
        }
    }
}

#[via_fn]
proof fn line_ranges_decreases(bytes: Seq<u8>, from: int) {
    if 0 <= from <= bytes.len() {
        lemma_seek(bytes, LINE_FEED, from);
    }
}

/// Why a byte string is not UTF-8.
#[derive(Clone, Copy, PartialEq, Eq, Debug)]
pub struct InvalidUtf8 {
    /// The number of bytes from the start that are UTF-8.
    pub valid_up_to: usize,
    /// The number of bytes after them that cannot begin a character, where
    /// the bytes do not merely stop short.
    pub error_len: Option<usize>,
}

/// `bstr::ByteSlice::lines`: the lines of `s` without their terminators, in
/// order, where `\n` and `\r\n` end a line.
#[verifier::external_body]
fn byte_lines<'a>(s: &'a [u8]) -> (res: Vec<&'a [u8]>)
    ensures
        res.len() == line_ranges(s@, 0).len(),
        forall|i: int|
            0 <= i < res.len() ==> (#[trigger] res[i])@ == s@.subrange(
                line_ranges(s@, 0)[i].0,
                line_ranges(s@, 0)[i].1,
            ),
{
    s.lines().collect()
}

/// `bstr::ByteSlice::split_once_str`: the bytes before and after the first
/// place where the bytes of `splitter` stand in `s`, or nothing where they
/// stand nowhere.
#[verifier::external_body]
fn byte_split_once<'a>(s: &'a [u8], splitter: &str) -> (res: Option<(&'a [u8], &'a [u8])>)
    ensures
        res is None ==> forall|i: int| !occurs_at(s@, encode_utf8(splitter@), i),
        res matches Some((a, b)) ==> {
            &&& first_at(s@, encode_utf8(splitter@), a@.len() as int)
            &&& a@ == s@.take(a@.len() as int)
            &&& b@ == s@.skip((a@.len() + encode_utf8(splitter@).len()) as int)
        },
{
    s.split_once_str(splitter)
}

/// `bstr::ByteSlice::to_str`: `s` as text where it is UTF-8; otherwise the
/// length of the longest prefix that is, and the length of the fault.
#[verifier::external_body]
fn byte_to_str<'a>(s: &'a [u8]) -> (res: Result<&'a str, InvalidUtf8>)
    ensures
        res is Ok <==> valid_utf8(s@),
        res matches Ok(text) ==> encode_utf8(text@) == s@,
        res matches Err(e) ==> {
            &&& e.valid_up_to < s@.len()
            &&& valid_utf8(s@.take(e.valid_up_to as int))
            &&& e.error_len matches Some(n) ==> 1 <= n <= 3
        },
{
    match s.to_str() {
        Ok(text) => Ok(text),
        Err(e) => Err(InvalidUtf8 { valid_up_to: e.valid_up_to(), error_len: e.error_len() }),
    }
}

impl<'a> Spanned<&'a [u8]> {
    /// The bytes of the content and the span they lie in.
    pub open spec fn located(&self) -> LocatedBytes {
        LocatedBytes { span: self.span@, bytes: self.content@ }
    }

    /// Removes `prefix` from the start, where the content begins with it,
    /// and moves the start of the span past it.
    pub fn strip_prefix(&self, prefix: &[u8]) -> (res: Option<Self>)
        requires
            self.located().fits(),
        ensures
            res is Some <==> self.located().strip_prefix(prefix@) is Some,
            res matches Some(rest) ==> {
                &&& Some(rest.located()) == self.located().strip_prefix(prefix@)
                &&& rest.span@.within(self.span@)
                &&& rest.located().fits()
                &&& self.located().exact() ==> rest.located().exact()
            },
    {
        if prefix.len() > self.content.len() {
            return None;
        }
        let mut i: usize = 0;
        while i < prefix.len()
            invariant
                i <= prefix.len() <= self.content.len(),
                forall|j: int| 0 <= j < i ==> self.content@[j] == prefix@[j],
            decreases prefix.len() - i,
        {
            if self.content[i] != prefix[i] {
                proof {
                    assert(self.content@.subrange(0, prefix@.len() as int)[i as int]
                        == self.content@[i as int]);
                }
                return None;
            }
            i = i + 1;
        }
        proof {
            assert(self.content@.subrange(0, prefix@.len() as int) =~= prefix@);
        }
        let content = slice_subrange(self.content, prefix.len(), self.content.len());
        let span = self.span.clone().inc_col_start(prefix.len());
        Some(Spanned { span, content })
    }

    /// Cuts the content at the first place where the bytes of `splitter`
    /// stand. Each part gets the span of its own bytes; the splitter
    /// belongs to neither.
    pub fn split_once_str(&self, splitter: &str) -> (res: Option<(Self, Self)>)
        requires
            self.located().fits(),
        ensures
            res is Some <==> self.located().split_once(encode_utf8(splitter@)) is Some,
            res matches Some((a, b)) ==> {
                &&& Some((a.located(), b.located())) == self.located().split_once(
                    encode_utf8(splitter@),
                )
                &&& a.span@.within(self.span@)
                &&& b.span@.within(self.span@)
                &&& a.content@ + encode_utf8(splitter@) + b.content@ == self.content@
                &&& a.located().exact()
                &&& b.located().fits()
                &&& self.located().exact() ==> b.located().exact()
            },
    {
        match byte_split_once(self.content, splitter) {
            None => None,
            Some((a, b)) => {
                proof {
                    lemma_first_at_unique(self.content@, encode_utf8(splitter@), a@.len() as int);
                }
                let left = self.span.clone().set_col_end_relative_to_start(a.len());
                let right = self.span.clone().inc_col_start(a.len() + str_len(splitter));
                Some((Spanned { span: left, content: a }, Spanned { span: right, content: b }))
            },
        }
    }

    /// The content as text, where it is UTF-8, or what is wrong with it,
    /// at the same place either way.
    pub fn to_str(self) -> (res: Result<Spanned<&'a str>, Spanned<InvalidUtf8>>)
        ensures
            res is Ok <==> valid_utf8(self.content@),
            res matches Ok(text) ==> encode_utf8(text.content@) == self.content@ && text.span
                == self.span,
            res matches Err(e) ==> {
                &&& e.span == self.span
                &&& e.content.valid_up_to < self.content@.len()
                &&& valid_utf8(self.content@.take(e.content.valid_up_to as int))
                &&& e.content.error_len matches Some(n) ==> 1 <= n <= 3
            },
    {
        let span = self.span;
        match byte_to_str(self.content) {
            Ok(content) => Ok(Spanned { content, span }),
            Err(err) => Err(Spanned { content: err, span }),
        }
    }

    /// The lines of the content, in order, each with the span of its own
    /// bytes and without the terminator that ends it.
    pub fn lines(&self) -> (res: Vec<Self>)
        requires
            self.located().fits(),
        ensures
            res.len() == self.located().lines().len(),
            forall|i: int|
                0 <= i < res.len() ==> (#[trigger] res[i]).located() == self.located().lines()[i]
                    && res[i].span@.within(self.span@) && res[i].located().exact(),
    {
        let found = byte_lines(self.content);
        let total = self.content.len();
        let mut out: Vec<Self> = Vec::new();
        let mut pos: usize = 0;
        let mut i: usize = 0;
        let ghost bytes = self.content@;
        let ghost ranges = line_ranges(bytes, 0);
        while i < found.len()
            invariant
                self.located().fits(),
                bytes == self.content@,
                ranges == line_ranges(bytes, 0),
                total == bytes.len(),
                i <= found.len() == ranges.len(),
                pos <= total,
                forall|k: int|
                    0 <= k < found.len() ==> (#[trigger] found[k])@ == bytes.subrange(
                        ranges[k].0,
                        ranges[k].1,
                    ),
                ranges == ranges.take(i as int) + line_ranges(bytes, pos as int),
                out.len() == i,
                forall|k: int|
                    0 <= k < out.len() ==> (#[trigger] out[k]).located() == self.located().piece(
                        ranges[k].0,
                        ranges[k].1,
                    ) && out[k].span@.within(self.span@) && out[k].located().exact(),
            decreases found.len() - i,
        {
            let line = found[i];
            let ghost rest = line_ranges(bytes, pos as int);
            proof {
                assert(ranges.len() == i + rest.len());
                assert(ranges[i as int] == rest[0]);
                lemma_seek(bytes, LINE_FEED, pos as int);
                assert(line@ == bytes.subrange(ranges[i as int].0, ranges[i as int].1));
                assert(line@.len() == ranges[i as int].1 - ranges[i as int].0);
            }
            let end = pos + line.len();
            let span = self.span.clone().inc_col_start(pos).set_col_end_relative_to_start(
                line.len(),
            );
            out.push(Spanned { span, content: line });
            let ghost feed = seek(bytes, LINE_FEED, pos as int);
            if end >= total {
                pos = total;
            } else if self.content[end] == LINE_FEED {
                pos = end + 1;
            } else {
                pos = end + 2;
            }
            proof {
                let next = line_ranges(bytes, pos as int);
                assert(rest =~= seq![ranges[i as int]] + next);
                assert(ranges.take(i as int) + (seq![ranges[i as int]] + next) =~= ranges.take(
                    i + 1,
                ) + next);
            }
            i = i + 1;
        }
        proof {
            assert forall|k: int| 0 <= k < out.len() implies (#[trigger] out[k]).located()
                == self.located().lines()[k] by {
                assert(out[k].located() == self.located().piece(ranges[k].0, ranges[k].1));
            }
        }
        out
    }
}

impl Spanned<Vec<u8>> {
    /// The same bytes, borrowed, at the same place.
    pub fn as_bytes(&self) -> (res: Spanned<&[u8]>)
        ensures
            res.content@ == self.content@,
            res.span@ == self.span@,
    {
        Spanned { span: self.span.clone(), content: self.content.as_slice() }
    }

    /// The lines of the content, as [`Spanned::<&[u8]>::lines`] gives them.
    pub fn lines(&self) -> (res: Vec<Spanned<&[u8]>>)
        requires
            self.located_bytes().fits(),
        ensures
            res.len() == self.located_bytes().lines().len(),
            forall|i: int|
                0 <= i < res.len() ==> (#[trigger] res[i]).located() == self.located_bytes().lines()[i]
                    && res[i].span@.within(self.span@) && res[i].located().exact(),
    {
        self.as_bytes().lines()
    }

    /// The bytes of the content and the span they lie in.
    pub open spec fn located_bytes(&self) -> LocatedBytes {
        LocatedBytes { span: self.span@, bytes: self.content@ }
    }
}

impl Spanned<String> {
    /// The bytes of the text, borrowed, at the same place.
    pub fn as_bytes(&self) -> (res: Spanned<&[u8]>)
        ensures
            res.content@ == encode_utf8(self.content@),
            res.span@ == self.span@,
    {
        Spanned { span: self.span.clone(), content: self.content.as_str().as_bytes() }
    }

    /// The lines of the content, as [`Spanned::<&[u8]>::lines`] gives them.
    pub fn lines(&self) -> (res: Vec<Spanned<&[u8]>>)
        requires
            self.located_bytes().fits(),
        ensures
            res.len() == self.located_bytes().lines().len(),
            forall|i: int|
                0 <= i < res.len() ==> (#[trigger] res[i]).located() == self.located_bytes().lines()[i]
                    && res[i].span@.within(self.span@) && res[i].located().exact(),
    {
        self.as_bytes().lines()
    }

    /// The bytes of the content and the span they lie in.
    pub open spec fn located_bytes(&self) -> LocatedBytes {
        LocatedBytes { span: self.span@, bytes: encode_utf8(self.content@) }
    }
}

impl<'a> Spanned<&'a str> {
    /// The bytes of the text, at the same place.
    pub fn as_bytes(&self) -> (res: Spanned<&'a [u8]>)
        ensures
            res.content@ == encode_utf8(self.content@),
            res.span@ == self.span@,
    {
        Spanned { span: self.span.clone(), content: self.content.as_bytes() }
    }

    /// The lines of the content, as [`Spanned::<&[u8]>::lines`] gives them.
    pub fn lines(&self) -> (res: Vec<Spanned<&'a [u8]>>)
        requires
            self.located().fits(),
        ensures
            res.len() == self.located_bytes().lines().len(),
            forall|i: int|
                0 <= i < res.len() ==> (#[trigger] res[i]).located()
                    == self.located_bytes().lines()[i] && res[i].span@.within(self.span@)
                    && res[i].located().exact(),
    {
        self.as_bytes().lines()
    }

    /// The bytes of the content and the span they lie in.
    pub open spec fn located_bytes(&self) -> LocatedBytes {
        LocatedBytes { span: self.span@, bytes: encode_utf8(self.content@) }
    }
}

} // verus!
