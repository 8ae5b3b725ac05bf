//! A chain of located messages: the first failure, and around it each
//! context that was added on its way up.

use crate::span::{Span, SpanView};
use crate::spanned::Spanned;
use std::fmt::Display;
use vstd::prelude::*;
use vstd::string::to_string_from_display_ensures;

verus! {

/// What one link of an [`Error`] stands for: a place and what is said of it.
pub struct Frame {
    pub span: SpanView,
    pub message: Seq<char>,
}

/// Whether `text` is what `value` displays as.
pub open spec fn shown<T: Display>(value: &T, text: Seq<char>) -> bool {
    exists|s: String| s@ == text && #[trigger] to_string_from_display_ensures::<T>(value, s)
}

/// An error that remembers where it happened, and each context it was
/// wrapped in since, the latest first.
#[derive(Debug)]
pub struct Error {
    span: Span,
    message: String,
    source: Option<Box<Error>>,
}

impl View for Error {
    type V = Seq<Frame>;

    /// The frames of the chain, from the context added last to the first failure.
    closed spec fn view(&self) -> Seq<Frame> {
        self.frames()
    }
}

impl<T: Display> From<Spanned<T>> for Error {
    /// An error with one frame: what `value` holds, at its place, as
    /// [`Error::new`] makes it.
    fn from(value: Spanned<T>) -> (res: Error)
        ensures
            res@.len() == 1,
            res@[0].span == value.span@,
            shown(&value.content, res@[0].message),
    {
        Error::new(value)
    }
}

impl<T: Display> vstd::std_specs::convert::FromSpecImpl<Spanned<T>> for Error {
    /// The message is what the content displays as, which no function of
    /// the value gives: the conversion is stated at `from` itself.
    open spec fn obeys_from_spec() -> bool {
        false
    }

    open spec fn from_spec(value: Spanned<T>) -> Error {
        choose|e: Error|
            e@.len() == 1 && e@[0].span == value.span@ && shown(&value.content, e@[0].message)
    }
}

impl Error {
    /// The frame of this link, followed by those of what it wraps.
    closed spec fn frames(&self) -> Seq<Frame>
        decreases self,
    {
        seq![Frame { span: self.span@, message: self.message@ }] + match self.source {
            Some(inner) => inner.frames(),
            None => seq![],
        }
    }

    /// An error with one frame: `message`, said of `span`.
    pub fn leaf(span: Span, message: String) -> (res: Error)
        ensures
            res@ == seq![Frame { span: span@, message: message@ }],
    {
        Error { span, message, source: None }
    }

    /// Puts the frame that says `message` of `span` around the error: it
    /// comes first, and every frame the error had follows unchanged.
    pub fn within(self, span: Span, message: String) -> (res: Error)
        ensures
            res@ == seq![Frame { span: span@, message: message@ }] + self@,
    {
        Error { span, message, source: Some(Box::new(self)) }
    }

    /// An error with one frame: what `context` holds, at its place.
    pub fn new<T: Display>(context: Spanned<T>) -> (res: Error)
        ensures
            res@.len() == 1,
            res@[0].span == context.span@,
            shown(&context.content, res@[0].message),
    {
        Error::leaf(context.span, context.content.to_string())
    }

    /// An error with one frame: what `context` displays as, at its place.
    pub fn new_str<T: Display>(context: Spanned<T>) -> (res: Error)
        ensures
            res@.len() == 1,
            res@[0].span == context.span@,
            shown(&context.content, res@[0].message),
    {
        Error::new(context)
    }

    /// An error with one frame: `data`, found at the place `here` in the
    /// program's own source.
    pub fn here<T: Display>(data: T, here: Span) -> (res: Error)
        ensures
            res@.len() == 1,
            res@[0].span == here@,
            shown(&data, res@[0].message),
    {
        Error::leaf(here, data.to_string())
    }

    /// An error with one frame: what `data` displays as, found at the place
    /// `here` in the program's own source.
    pub fn str<T: Display>(data: T, here: Span) -> (res: Error)
        ensures
            res@.len() == 1,
            res@[0].span == here@,
            shown(&data, res@[0].message),
    {
        Error::here(data, here)
    }

    /// Puts `context` around the error: its frame comes first, and every
    /// frame the error had follows unchanged.
    pub fn wrap<T: Display>(self, context: Spanned<T>) -> (res: Error)
        ensures
            res@.len() == self@.len() + 1,
            res@[0].span == context.span@,
            shown(&context.content, res@[0].message),
            res@.skip(1) == self@,
    {
        let res = self.within(context.span, context.content.to_string());
        proof {
            assert(res@.skip(1) =~= self@);
        }
        res
    }

    /// Puts what `context` displays as around the error, as [`Error::wrap`] does.
    pub fn wrap_str<T: Display>(self, context: Spanned<T>) -> (res: Error)
        ensures
            res@.len() == self@.len() + 1,
            res@[0].span == context.span@,
            shown(&context.content, res@[0].message),
            res@.skip(1) == self@,
    {
        self.wrap(context)
    }

    /// The error that this one was wrapped around, if it has one.
    pub fn source(&self) -> (res: Option<&Error>)
        ensures
            res is None <==> self@.len() == 1,
            res matches Some(inner) ==> inner@ == self@.skip(1),
            self@.len() >= 1,
    {
        match &self.source {
            Some(inner) => {
                proof {
                    assert(self.frames().skip(1) =~= inner.frames());
                    inner.lemma_not_empty();
                }
                Some(&**inner)
            },
            None => None,
        }
    }

    /// Every link of the chain, from this one to the first failure.
    pub fn links(&self) -> (res: Vec<&Error>)
        ensures
            res.len() == self@.len(),
            forall|i: int| 0 <= i < res.len() ==> (#[trigger] res[i])@ == self@.skip(i),
    {
        let mut out: Vec<&Error> = Vec::new();
        let mut cur: &Error = self;
        proof {
            assert(self@.skip(0) =~= self@);
        }
        loop
            invariant_except_break
                cur@ == self@.skip(out.len() as int),
            invariant
                out.len() <= self@.len(),
                forall|i: int| 0 <= i < out.len() ==> (#[trigger] out[i])@ == self@.skip(i),
            ensures
                out.len() == self@.len(),
            decreases self@.len() - out.len(),
        {
            let next = cur.source();
            out.push(cur);
            match next {
                None => {
                    break ;
                },
                Some(inner) => {
                    proof {
                        assert(self@.skip(out.len() - 1).skip(1) =~= self@.skip(out.len() as int));
                    }
                    cur = inner;
                },
            }
        }
        out
    }

    /// The place of the outermost frame.
    pub fn span(&self) -> (res: &Span)
        ensures
            res@ == self@[0].span,
            self@.len() >= 1,
    {
        &self.span
    }

    /// The message of the outermost frame.
    pub fn message(&self) -> (res: &str)
        ensures
            res@ == self@[0].message,
            self@.len() >= 1,
    {
        self.message.as_str()
    }

    /// A chain has at least one frame.
    pub proof fn lemma_not_empty(&self)
        ensures
            self@.len() >= 1,
    {
    }
}

} // verus!
