//! A value together with the place in a source file it was read from, and
//! the string operations that keep the two in step.

use crate::error::{shown, Error};
use crate::laws::{
    lemma_split_at_rejoins, lemma_split_once_accounts, lemma_strip_accounts,
    lemma_trim_start_matches_within, lemma_trim_within,
};
use crate::span::{Span, SpanView};
use crate::text::{
    byte_len, char_offsets, ends_with, find, find_str, lemma_byte_len_step, lemma_encode_parts,
    lemma_skip_while_shorter, lemma_trim_end_shorter, len_utf8, offset_of, pieces, same_as, seek,
    split_str, starts_with, starts_with_str, str_eq, str_len, strip_prefix_str, strip_suffix_str,
    trim_end_of, trim_end_str, trim_start_matches_of, trim_start_matches_str, trim_start_of,
    trim_start_str, white_space,
};
use vstd::prelude::*;
use vstd::std_specs::iter::IteratorSpec;
use vstd::utf8::*;

verus! {

/// A value and the span of the source text it came from.
#[derive(PartialEq, Eq, PartialOrd, Ord, Debug)]
pub struct Spanned<T> {
    pub span: Span,
    pub content: T,
}

/// What a spanned string stands for: its characters and where they lie.
pub struct Located {
    pub span: SpanView,
    pub text: Seq<char>,
}

impl Located {
    /// The span is at least as long as the text, so that every boundary the
    /// text can move stays inside the span.
    pub open spec fn fits(self) -> bool {
        self.span.wf() && byte_len(self.text) <= self.span.len()
    }

    /// The span covers the text and nothing else.
    pub open spec fn exact(self) -> bool {
        self.span.wf() && byte_len(self.text) == self.span.len()
    }

    /// The two parts of `self` before and after byte `pos` of its text.
    pub open spec fn split_at(self, pos: int) -> (Located, Located) {
        let bytes = encode_utf8(self.text);
        (
            Located {
                span: SpanView { end: self.span.start + pos, ..self.span },
                text: decode_utf8(bytes.subrange(0, pos)),
            },
            Located {
                span: SpanView { start: self.span.start + pos, ..self.span },
                text: decode_utf8(bytes.subrange(pos, bytes.len() as int)),
            },
        )
    }

    /// The parts of `self` before and after the first place where `delimiter`
    /// stands, neither of them holding the delimiter.
    pub open spec fn split_once(self, delimiter: Seq<char>) -> Option<(Located, Located)> {
        match find(self.text, delimiter) {
            None => None,
            Some(at) => {
                let from = byte_len(self.text.take(at));
                let to = byte_len(self.text.take(at + delimiter.len()));
                Some(
                    (
                        Located {
                            span: SpanView { end: self.span.start + from, ..self.span },
                            text: self.text.take(at),
                        },
                        Located {
                            span: SpanView { start: self.span.start + to, ..self.span },
                            text: self.text.skip(at + delimiter.len()),
                        },
                    ),
                )
            },
        }
    }

    /// `self` with `kept`, the end of its text, left and the start of its
    /// span moved up by the bytes that went.
    pub open spec fn keep_end(self, kept: Seq<char>) -> Located {
        Located {
            span: SpanView {
                start: self.span.start + (byte_len(self.text) - byte_len(kept)),
                ..self.span
            },
            text: kept,
        }
    }

    /// `self` with `kept`, the start of its text, left and the end of its
    /// span moved down by the bytes that went.
    pub open spec fn keep_start(self, kept: Seq<char>) -> Located {
        Located {
            span: SpanView {
                end: self.span.end - (byte_len(self.text) - byte_len(kept)),
                ..self.span
            },
            text: kept,
        }
    }

    /// `self` without the whitespace it begins with.
    pub open spec fn trim_start(self) -> Located {
        self.keep_end(trim_start_of(self.text))
    }

    /// `self` without the run of `c` it begins with.
    pub open spec fn trim_start_matches(self, c: char) -> Located {
        self.keep_end(trim_start_matches_of(self.text, c))
    }

    /// `self` without the whitespace it ends with.
    pub open spec fn trim_end(self) -> Located {
        self.keep_start(trim_end_of(self.text))
    }

    /// `self` without the whitespace at either end.
    pub open spec fn trim(self) -> Located {
        self.trim_start().trim_end()
    }

    /// `self` without the prefix `p`, if its text begins with it.
    pub open spec fn strip_prefix(self, p: Seq<char>) -> Option<Located> {
        if starts_with(self.text, p) {
            Some(self.keep_end(self.text.skip(p.len() as int)))
        } else {
            None
        }
    }

    /// The characters `from..to` of `self`, with the span of their bytes.
    pub open spec fn piece(self, from: int, to: int) -> Located {
        Located {
            span: SpanView {
                start: self.span.start + byte_len(self.text.take(from)),
                end: self.span.start + byte_len(self.text.take(to)),
                ..self.span
            },
            text: self.text.subrange(from, to),
        }
    }

    /// The pieces that `c` cuts `self` into, none of them holding `c`.
    pub open spec fn split(self, c: char) -> Seq<Located> {
        pieces(self.text, c, 0).map_values(|r: (int, int)| self.piece(r.0, r.1))
    }

    /// The empty span at which character `k` of the text begins.
    pub open spec fn point(self, k: int) -> SpanView {
        SpanView {
            start: self.span.start + byte_len(self.text.take(k)),
            end: self.span.start + byte_len(self.text.take(k)),
            ..self.span
        }
    }

    /// `self` without the suffix `p`, if its text ends with it.
    pub open spec fn strip_suffix(self, p: Seq<char>) -> Option<Located> {
        if ends_with(self.text, p) {
            Some(self.keep_start(self.text.take(self.text.len() - p.len())))
        } else {
            None
        }
    }
}

impl<T: Clone> Clone for Spanned<T> {
    fn clone(&self) -> (res: Self)
        ensures
            res.span@ == self.span@,
            cloned(self.content, res.content),
    {
        Spanned { span: self.span.clone(), content: self.content.clone() }
    }
}

impl<T: Default> Default for Spanned<T> {
    /// The default content, read from nowhere.
    fn default() -> (res: Self)
        ensures
            res.span@ == SpanView::dummy(),
            call_ensures(T::default, (), res.content),
    {
        Spanned { span: Span::default(), content: T::default() }
    }
}

impl<'a, 'b> PartialEq<&'b str> for Spanned<&'a str> {
    /// A spanned text equals a text when its content does, wherever it lies.
    fn eq(&self, other: &&'b str) -> (res: bool) {
        str_eq(self.content, *other)
    }
}

impl<'a, 'b> vstd::std_specs::cmp::PartialEqSpecImpl<&'b str> for Spanned<&'a str> {
    open spec fn obeys_eq_spec() -> bool {
        true
    }

    open spec fn eq_spec(&self, other: &&'b str) -> bool {
        self.content@ == other@
    }
}

impl<'b> PartialEq<&'b str> for Spanned<String> {
    /// A spanned text equals a text when its content does, wherever it lies.
    fn eq(&self, other: &&'b str) -> (res: bool) {
        str_eq(self.content.as_str(), *other)
    }
}

impl<'b> vstd::std_specs::cmp::PartialEqSpecImpl<&'b str> for Spanned<String> {
    open spec fn obeys_eq_spec() -> bool {
        true
    }

    open spec fn eq_spec(&self, other: &&'b str) -> bool {
        self.content@ == other@
    }
}

impl<T> core::ops::Deref for Spanned<T> {
    type Target = T;

    fn deref(&self) -> (res: &T)
        ensures
            *res == self.content,
    {
        &self.content
    }
}

impl<T> Spanned<T> {
    /// `content`, read from `span`.
    pub fn new(content: T, span: Span) -> (res: Self)
        ensures
            res.content == content,
            res.span == span,
    {
        Spanned { content, span }
    }

    /// `content`, found at the place `here` in the program's own source.
    pub fn here(content: T, here: Span) -> (res: Self)
        ensures
            res.content == content,
            res.span == here,
    {
        Spanned { span: here, content }
    }

    /// `content`, read from nowhere.
    pub fn dummy(content: T) -> (res: Self)
        ensures
            res.content == content,
            res.span@ == SpanView::dummy(),
    {
        Spanned { span: Span::default(), content }
    }

    /// The same place, with what `f` makes of the content.
    pub fn map<U>(self, f: impl FnOnce(T) -> U) -> (res: Spanned<U>)
        requires
            f.requires((self.content,)),
        ensures
            f.ensures((self.content,), res.content),
            res.span == self.span,
    {
        let Spanned { content, span } = self;
        let content = f(content);
        Spanned { content, span }
    }

    /// The place the content was read from.
    pub fn span(&self) -> (res: Span)
        ensures
            res@ == self.span@,
            res@.wf(),
    {
        self.span.clone()
    }

    /// The same place, with a reference to the content.
    pub fn as_ref(&self) -> (res: Spanned<&T>)
        ensures
            *res.content == self.content,
            res.span@ == self.span@,
    {
        Spanned { span: self.span.clone(), content: &self.content }
    }
}

impl<T: core::ops::Deref> Spanned<T> {
    /// The same place, with a reference to what the content points at.
    pub fn as_deref(&self) -> (res: Spanned<&T::Target>)
        ensures
            res.span@ == self.span@,
            call_ensures(T::deref, (&self.content,), res.content),
    {
        Spanned { span: self.span.clone(), content: self.content.deref() }
    }
}

impl<T, E> Spanned<Result<T, E>> {
    /// The result of a spanned value, in place of a spanned result.
    pub fn transpose(self) -> (res: Result<Spanned<T>, Spanned<E>>)
        ensures
            match self.content {
                Ok(val) => res == Ok::<Spanned<T>, Spanned<E>>(
                    Spanned { span: self.span, content: val },
                ),
                Err(err) => res == Err::<Spanned<T>, Spanned<E>>(
                    Spanned { span: self.span, content: err },
                ),
            },
    {
        match self.content {
            Ok(val) => Ok(Spanned::new(val, self.span)),
            Err(err) => Err(Spanned::new(err, self.span)),
        }
    }

    /// The value of a result that is known to hold one.
    pub fn unwrap(self) -> (res: Spanned<T>)
        requires
            self.content is Ok,
        ensures
            res.content == self.content->Ok_0,
            res.span == self.span,
    {
        match self.content {
            Ok(val) => Spanned::new(val, self.span),
            Err(_) => vstd::pervasive::unreached(),
        }
    }
}

impl Spanned<Vec<u8>> {
    /// What was read from the file `path`, spanning all of it: `content` is
    /// the outcome of reading the file, and the span covers as many bytes
    /// as were read, or none where reading failed.
    pub fn read_from_file<E>(path: &str, content: Result<Vec<u8>, E>) -> (res: Spanned<
        Result<Vec<u8>, E>,
    >)
        requires
            content matches Ok(bytes) ==> bytes@.len() <= u32::MAX,
        ensures
            res.content == content,
            res.span@ == (SpanView {
                file: path@,
                start: 0,
                end: match content {
                    Ok(bytes) => bytes@.len() as int,
                    Err(_) => 0,
                },
            }),
    {
        let len = match &content {
            Ok(bytes) => bytes.len(),
            Err(_) => 0,
        };
        Spanned { span: Span::new(path, 0..len), content }
    }
}

impl Spanned<String> {
    /// What was read as text from the file `path`, spanning all of it:
    /// `content` is the outcome of reading the file, and the span covers
    /// as many bytes as were read, or none where reading failed.
    pub fn read_str_from_file<E>(path: &str, content: Result<String, E>) -> (res: Spanned<
        Result<String, E>,
    >)
        requires
            content matches Ok(text) ==> byte_len(text@) <= u32::MAX,
        ensures
            res.content == content,
            res.span@ == (SpanView {
                file: path@,
                start: 0,
                end: match content {
                    Ok(text) => byte_len(text@) as int,
                    Err(_) => 0,
                },
            }),
    {
        let len = match &content {
            Ok(text) => str_len(text.as_str()),
            Err(_) => 0,
        };
        Spanned { span: Span::new(path, 0..len), content }
    }
}

impl<'a> Spanned<&'a str> {
    /// The characters of the content and the span they lie in.
    pub open spec fn located(&self) -> Located {
        Located { span: self.span@, text: self.content@ }
    }

    /// Whether the content holds no character.
    pub fn is_empty(&self) -> (res: bool)
        ensures
            res == (self.content@.len() == 0),
    {
        self.content.is_empty()
    }

    /// Whether the content begins with `pat`.
    pub fn starts_with(&self, pat: &str) -> (res: bool)
        ensures
            res == starts_with(self.content@, pat@),
    {
        starts_with_str(self.content, pat)
    }

    /// Removes the whitespace at the start, and moves the start of the span
    /// up by as many bytes.
    pub fn trim_start(&self) -> (res: Self)
        requires
            self.located().fits(),
        ensures
            res.located() == self.located().trim_start(),
            res.span@.within(self.span@),
            res.located().fits(),
            self.located().exact() ==> res.located().exact(),
    {
        proof {
            lemma_trim_within(self.located());
        }
        let content = trim_start_str(self.content);
        proof {
            lemma_skip_while_shorter(self.content@, white_space());
        }
        let n = str_len(self.content) - str_len(content);
        let span = self.span.clone().inc_col_start(n);
        Spanned { span, content }
    }

    /// Removes the run of `c` at the start, and moves the start of the span
    /// up by as many bytes.
    pub fn trim_start_matches(&self, c: char) -> (res: Self)
        requires
            self.located().fits(),
        ensures
            res.located() == self.located().trim_start_matches(c),
            res.span@.within(self.span@),
            res.located().fits(),
            self.located().exact() ==> res.located().exact(),
    {
        proof {
            lemma_trim_start_matches_within(self.located(), c);
        }
        let content = trim_start_matches_str(self.content, c);
        proof {
            lemma_skip_while_shorter(self.content@, same_as(c));
        }
        let n = str_len(self.content) - str_len(content);
        let span = self.span.clone().inc_col_start(n);
        Spanned { span, content }
    }

    /// Removes the whitespace at the end, and moves the end of the span down
    /// by as many bytes.
    pub fn trim_end(&self) -> (res: Self)
        requires
            self.located().fits(),
        ensures
            res.located() == self.located().trim_end(),
            res.span@.within(self.span@),
            res.located().fits(),
            self.located().exact() ==> res.located().exact(),
    {
        proof {
            lemma_trim_within(self.located());
        }
        let content = trim_end_str(self.content);
        proof {
            lemma_trim_end_shorter(self.content@);
        }
        let n = str_len(self.content) - str_len(content);
        let span = self.span.clone().dec_col_end(n);
        Spanned { span, content }
    }

    /// Removes the whitespace at both ends, and moves each end of the span
    /// by the bytes that went there.
    pub fn trim(&self) -> (res: Self)
        requires
            self.located().fits(),
        ensures
            res.located() == self.located().trim(),
            res.span@.within(self.span@),
            res.located().fits(),
            self.located().exact() ==> res.located().exact(),
    {
        proof {
            lemma_trim_within(self.located());
        }
        proof {
            lemma_skip_while_shorter(self.content@, white_space());
        }
        self.trim_start().trim_end()
    }

    /// Removes `prefix` from the start, where the content begins with it,
    /// and moves the start of the span past it.
    pub fn strip_prefix(&self, prefix: &str) -> (res: Option<Self>)
        requires
            self.located().fits(),
        ensures
            res is Some <==> self.located().strip_prefix(prefix@) is Some,
            res matches Some(rest) ==> {
                &&& Some(rest.located()) == self.located().strip_prefix(prefix@)
                &&& rest.span@.within(self.span@)
                &&& rest.located().fits()
                &&& self.located().exact() ==> rest.located().exact()
            },
    {
        proof {
            lemma_strip_accounts(self.located(), prefix@);
        }
        match strip_prefix_str(self.content, prefix) {
            None => None,
            Some(content) => {
                proof {
                    lemma_encode_parts(self.content@, prefix@.len() as int);
                    assert(self.content@.take(prefix@.len() as int) =~= prefix@);
                }
                let span = self.span.clone().inc_col_start(str_len(prefix));
                Some(Spanned { span, content })
            },
        }
    }

    /// Removes `suffix` from the end, where the content ends with it, and
    /// moves the end of the span before it.
    pub fn strip_suffix(&self, suffix: &str) -> (res: Option<Self>)
        requires
            self.located().fits(),
        ensures
            res is Some <==> self.located().strip_suffix(suffix@) is Some,
            res matches Some(rest) ==> {
                &&& Some(rest.located()) == self.located().strip_suffix(suffix@)
                &&& rest.span@.within(self.span@)
                &&& rest.located().fits()
                &&& self.located().exact() ==> rest.located().exact()
            },
    {
        proof {
            lemma_strip_accounts(self.located(), suffix@);
        }
        match strip_suffix_str(self.content, suffix) {
            None => None,
            Some(content) => {
                proof {
                    let cut = self.content@.len() - suffix@.len();
                    lemma_encode_parts(self.content@, cut);
                    assert(self.content@.skip(cut) =~= suffix@);
                }
                let span = self.span.clone().dec_col_end(str_len(suffix));
                Some(Spanned { span, content })
            },
        }
    }

    /// Cuts the content at byte `pos`, and the span at the same place.
    pub fn split_at(&self, pos: usize) -> (res: (Self, Self))
        requires
            self.located().fits(),
            is_char_boundary(encode_utf8(self.content@), pos as int),
        ensures
            (res.0.located(), res.1.located()) == self.located().split_at(pos as int),
            res.0.span@.within(self.span@),
            res.1.span@.within(self.span@),
            res.0.span@.end == res.1.span@.start,
            res.0.content@ + res.1.content@ == self.content@,
            res.0.located().exact(),
            res.1.located().fits(),
            self.located().exact() ==> res.1.located().exact(),
    {
        proof {
            lemma_split_at_rejoins(self.located(), pos as int);
        }
        broadcast use {encode_utf8_valid_utf8, encode_utf8_decode_utf8};

        let (a, b) = self.content.split_at(pos);
        let left = self.span.clone().set_col_end_relative_to_start(pos);
        let right = self.span.clone().inc_col_start(pos);
        (Spanned { span: left, content: a }, Spanned { span: right, content: b })
    }

    /// Cuts the content at the first place where `delimiter` stands. Each
    /// part gets the span of its own text; the delimiter belongs to neither.
    pub fn split_once(&self, delimiter: &str) -> (res: Option<(Self, Self)>)
        requires
            self.located().fits(),
        ensures
            res is Some <==> self.located().split_once(delimiter@) is Some,
            res matches Some((a, b)) ==> {
                &&& Some((a.located(), b.located())) == self.located().split_once(delimiter@)
                &&& a.span@.within(self.span@)
                &&& b.span@.within(self.span@)
                &&& a.content@ + delimiter@ + b.content@ == self.content@
                &&& a.located().exact()
                &&& b.located().fits()
                &&& self.located().exact() ==> b.located().exact()
            },
    {
        proof {
            if self.located().split_once(delimiter@) is Some {
                lemma_split_once_accounts(self.located(), delimiter@);
            }
        }
        match find_str(self.content, delimiter) {
            None => None,
            Some((from, to, at)) => {
                proof {
                    lemma_encode_parts(self.content@, at@);
                    lemma_encode_parts(self.content@, at@ + delimiter@.len());
                    lemma_encode_parts(self.content@.take(at@ + delimiter@.len()), at@);
                    assert(self.content@.take(at@ + delimiter@.len()).take(at@)
                        =~= self.content@.take(at@));
                }
                let a = split_str(self.content, from, Ghost(at@)).0;
                let b = split_str(self.content, to, Ghost(at@ + delimiter@.len())).1;
                let left = self.span.clone().set_col_end_relative_to_start(from);
                let right = self.span.clone().inc_col_start(to);
                Some((Spanned { span: left, content: a }, Spanned { span: right, content: b }))
            },
        }
    }

    /// Cuts the content before its first character of which `delimiter`
    /// does not hold; there is no cut where it holds of all of them.
    pub fn take_while(&self, delimiter: impl Fn(char) -> bool) -> (res: Option<(Self, Self)>)
        requires
            self.located().fits(),
            forall|c: char| delimiter.requires((c,)),
        ensures
            res is None ==> forall|j: int|
                0 <= j < self.content@.len() ==> delimiter.ensures(
                    (#[trigger] self.content@[j],),
                    true,
                ),
            res matches Some((a, b)) ==> exists|k: int|
                {
                    &&& 0 <= k < self.content@.len()
                    &&& delimiter.ensures((self.content@[k],), false)
                    &&& forall|j: int|
                        0 <= j < k ==> delimiter.ensures((#[trigger] self.content@[j],), true)
                    &&& (a.located(), b.located()) == self.located().split_at(
                        byte_len(self.content@.take(k)) as int,
                    )
                    &&& a.span@.within(self.span@)
                    &&& b.span@.within(self.span@)
                    &&& a.content@ + b.content@ == self.content@
                    &&& a.located().exact()
                    &&& b.located().fits()
                    &&& self.located().exact() ==> b.located().exact()
                },
    {
        broadcast use vstd::string::group_string_axioms;

        let total = str_len(self.content);
        let mut it = self.content.chars();
        let mut off: usize = 0;
        let mut found = false;
        let ghost mut k: int = 0;
        loop
            invariant_except_break
                it.remaining() == self.content@.skip(k),
                it.obeys_prophetic_iter_laws(),
                it.decrease() is Some,
                !found,
            invariant
                0 <= k <= self.content@.len(),
                total == byte_len(self.content@),
                off == byte_len(self.content@.take(k)),
                forall|c: char| delimiter.requires((c,)),
                forall|j: int|
                    0 <= j < k ==> delimiter.ensures((#[trigger] self.content@[j],), true),
            ensures
                found ==> k < self.content@.len() && delimiter.ensures((self.content@[k],), false),
                !found ==> k == self.content@.len(),
            decreases self.content@.len() - k,
        {
            match it.next() {
                None => {
                    break ;
                },
                Some(c) => {
                    proof {
                        lemma_byte_len_step(self.content@, k);
                    }
                    if !delimiter(c) {
                        found = true;
                        break ;
                    }
                    off = off + len_utf8(c);
                    proof {
                        k = k + 1;
                    }
                },
            }
        }
        if found {
            proof {
                lemma_encode_parts(self.content@, k);
            }
            Some(self.split_at(off))
        } else {
            None
        }
    }

    /// The characters `from..to` of the content, with the span of their bytes.
    fn piece(&self, offsets: &Vec<(usize, char)>, total: usize, from: usize, to: usize) -> (res:
        Self)
        requires
            self.located().fits(),
            from <= to <= offsets.len(),
            offsets.len() == self.content@.len(),
            total == byte_len(self.content@),
            forall|i: int|
                0 <= i < offsets.len() ==> (#[trigger] offsets[i]).0 == byte_len(
                    self.content@.take(i),
                ),
        ensures
            res.located() == self.located().piece(from as int, to as int),
            res.span@.within(self.span@),
            res.located().exact(),
    {
        let begin = offset_of(offsets, total, from, Ghost(self.content@));
        let end = offset_of(offsets, total, to, Ghost(self.content@));
        proof {
            let text = self.content@;
            lemma_encode_parts(text, to as int);
            lemma_encode_parts(text.take(to as int), from as int);
            assert(text.take(to as int).take(from as int) =~= text.take(from as int));
            assert(text.take(to as int).skip(from as int) =~= text.subrange(from as int, to as int));
        }
        let head = split_str(self.content, end, Ghost(to as int)).0;
        let content = split_str(head, begin, Ghost(from as int)).1;
        let span = self.span.clone().inc_col_start(begin).set_col_end_relative_to_start(
            end - begin,
        );
        Spanned { span, content }
    }

    /// The pieces that `needle` cuts the content into, in order, each with
    /// the span of its own text.
    pub fn split(&self, needle: char) -> (res: Vec<Self>)
        requires
            self.located().fits(),
        ensures
            res.len() == self.located().split(needle).len(),
            forall|i: int|
                0 <= i < res.len() ==> (#[trigger] res[i]).located() == self.located().split(
                    needle,
                )[i] && res[i].span@.within(self.span@) && res[i].located().exact(),
    {
        let total = str_len(self.content);
        let offsets = char_offsets(self.content);
        let mut out: Vec<Self> = Vec::new();
        let mut from: usize = 0;
        let mut i: usize = 0;
        let ghost text = self.content@;
        let ghost mut done: Seq<(int, int)> = seq![];
        while i < offsets.len()
            invariant
                self.located().fits(),
                text == self.content@,
                from <= i <= offsets.len(),
                offsets.len() == text.len(),
                total == byte_len(text),
                forall|k: int|
                    0 <= k < offsets.len() ==> (#[trigger] offsets[k]).0 == byte_len(text.take(k))
                        && offsets[k].1 == text[k],
                seek(text, needle, from as int) == seek(text, needle, i as int),
                pieces(text, needle, 0) == done + pieces(text, needle, from as int),
                out.len() == done.len(),
                forall|k: int|
                    0 <= k < out.len() ==> (#[trigger] out[k]).located() == self.located().piece(
                        done[k].0,
                        done[k].1,
                    ) && out[k].span@.within(self.span@) && out[k].located().exact(),
            decreases offsets.len() - i,
        {
            if offsets[i].1 == needle {
                let part = self.piece(&offsets, total, from, i);
                out.push(part);
                proof {
                    assert(done + (seq![(from as int, i as int)] + pieces(text, needle, i + 1))
                        =~= done.push((from as int, i as int)) + pieces(text, needle, i + 1));
                    done = done.push((from as int, i as int));
                }
                from = i + 1;
            }
            i = i + 1;
        }
        let part = self.piece(&offsets, total, from, offsets.len());
        out.push(part);
        proof {
            let last = (from as int, text.len() as int);
            assert(done + seq![last] =~= done.push(last));
            done = done.push(last);
            assert(done == pieces(text, needle, 0));
            assert forall|k: int| 0 <= k < out.len() implies (#[trigger] out[k]).located()
                == self.located().split(needle)[k] by {
                assert(out[k].located() == self.located().piece(done[k].0, done[k].1));
            }
        }
        out
    }

    /// The characters of the content, in order, each with the empty span at
    /// the byte where it begins.
    pub fn chars(&self) -> (res: Vec<Spanned<char>>)
        requires
            self.located().fits(),
        ensures
            res.len() == self.content@.len(),
            forall|i: int|
                0 <= i < res.len() ==> (#[trigger] res[i]).content == self.content@[i]
                    && res[i].span@ == self.located().point(i),
    {
        let offsets = char_offsets(self.content);
        let mut out: Vec<Spanned<char>> = Vec::new();
        let mut i: usize = 0;
        while i < offsets.len()
            invariant
                self.located().fits(),
                i <= offsets.len(),
                offsets.len() == self.content@.len(),
                forall|k: int|
                    0 <= k < offsets.len() ==> (#[trigger] offsets[k]).0 == byte_len(
                        self.content@.take(k),
                    ) && offsets[k].1 == self.content@[k],
                out.len() == i,
                forall|k: int|
                    0 <= k < out.len() ==> (#[trigger] out[k]).content == self.content@[k]
                        && out[k].span@ == self.located().point(k),
            decreases offsets.len() - i,
        {
            proof {
                lemma_encode_parts(self.content@, i as int);
            }
            let span = self.span.clone().inc_col_start(offsets[i].0).shrink_to_start();
            out.push(Spanned { span, content: offsets[i].1 });
            i = i + 1;
        }
        out
    }

    /// Reads the content with `read`, such as `str::parse` for the type
    /// that is wanted. What is read stands at the same place; a failure
    /// becomes an error with one frame, at the same place, that says what
    /// the failure displays as.
    pub fn parse<T, E: core::fmt::Display>(
        &self,
        read: impl FnOnce(&'a str) -> Result<T, E>,
    ) -> (res: Result<Spanned<T>, Error>)
        requires
            read.requires((self.content,)),
        ensures
            res matches Ok(value) ==> value.span@ == self.span@ && read.ensures(
                (self.content,),
                Ok(value.content),
            ),
            res matches Err(e) ==> e@.len() == 1 && e@[0].span == self.span@ && exists|why: E|
                #[trigger] read.ensures((self.content,), Err(why)) && shown(&why, e@[0].message),
    {
        match read(self.content) {
            Ok(content) => Ok(Spanned { span: self.span.clone(), content }),
            Err(why) => {
                let e = Error::new_str(Spanned { span: self.span.clone(), content: why });
                proof {
                    assert(read.ensures((self.content,), Err(why)) && shown(&why, e@[0].message));
                }
                Err(e)
            },
        }
    }

    /// The same content in a string of its own, at the same place.
    pub fn to_string(&self) -> (res: Spanned<String>)
        ensures
            res.content@ == self.content@,
            res.span@ == self.span@,
    {
        Spanned { span: self.span.clone(), content: self.content.to_owned() }
    }
}

} // verus!
