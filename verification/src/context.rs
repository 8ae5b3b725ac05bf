//! Context for a failure of any kind: a result that holds an error becomes
//! a chain of two frames, the context outside and the failure inside.

use crate::error::{shown, Error};
use crate::span::{Span, SpanView};
use crate::spanned::Spanned;
use std::fmt::Display;
use vstd::prelude::*;

verus! {

/// Whether `chain` is the failure `cause`, noticed at `here`, inside a
/// context that displays as `context` does and lies at `place`.
pub open spec fn in_context<E: Display, U: Display>(
    chain: Error,
    cause: &E,
    here: SpanView,
    context: &U,
    place: SpanView,
) -> bool {
    &&& chain@.len() == 2
    &&& chain@[0].span == place
    &&& shown(context, chain@[0].message)
    &&& chain@[1].span == here
    &&& shown(cause, chain@[1].message)
}

/// Results whose error can be given a context. `here` is the place in the
/// program's own source at which the failure is noticed.
pub trait Context<T> {
    /// On failure, the chain with the context that `f` makes.
    fn with_context<U: Display, F: FnOnce() -> Spanned<U>>(self, f: F, here: Span) -> Result<
        T,
        Error,
    >
        requires
            f.requires(()),
    ;

    /// On failure, the chain with the context `msg`, at the start of the
    /// file `path`.
    fn with_path_context<U: Display>(self, path: &str, msg: U, here: Span) -> Result<T, Error>;

    /// On failure, the chain with the context `msg`, at `here`.
    fn with_str_context<U: Display>(self, msg: U, here: Span) -> Result<T, Error>;
}

impl<T, E: Display> Context<T> for Result<T, E> {
    fn with_context<U: Display, F: FnOnce() -> Spanned<U>>(self, f: F, here: Span) -> (res: Result<
        T,
        Error,
    >)
        ensures
            self matches Ok(value) ==> res == Ok::<T, Error>(value),
            self matches Err(cause) ==> res matches Err(chain) && exists|context: Spanned<U>|
                #[trigger] f.ensures((), context) && in_context(
                    chain,
                    &cause,
                    here@,
                    &context.content,
                    context.span@,
                ),
    {
        match self {
            Ok(value) => Ok(value),
            Err(cause) => {
                let context = f();
                let inner = Error::new_str(Spanned { span: here, content: cause });
                let ghost frames = inner@;
                let chain = inner.wrap_str(context);
                proof {
                    assert(chain@[1] == chain@.skip(1)[0]);
                    assert(f.ensures((), context) && in_context(
                        chain,
                        &cause,
                        here@,
                        &context.content,
                        context.span@,
                    ));
                }
                Err(chain)
            },
        }
    }

    fn with_path_context<U: Display>(self, path: &str, msg: U, here: Span) -> (res: Result<
        T,
        Error,
    >)
        ensures
            self matches Ok(value) ==> res == Ok::<T, Error>(value),
            self matches Err(cause) ==> res matches Err(chain) && in_context(
                chain,
                &cause,
                here@,
                &msg,
                SpanView { file: path@, start: 0, end: 0 },
            ),
    {
        match self {
            Ok(value) => Ok(value),
            Err(cause) => {
                let inner = Error::new_str(Spanned { span: here, content: cause });
                let chain = inner.wrap_str(Spanned { span: Span::new(path, 0..0), content: msg });
                proof {
                    assert(chain@[1] == chain@.skip(1)[0]);
                }
                Err(chain)
            },
        }
    }

    fn with_str_context<U: Display>(self, msg: U, here: Span) -> (res: Result<T, Error>)
        ensures
            self matches Ok(value) ==> res == Ok::<T, Error>(value),
            self matches Err(cause) ==> res matches Err(chain) && in_context(
                chain,
                &cause,
                here@,
                &msg,
                here@,
            ),
    {
        match self {
            Ok(value) => Ok(value),
            Err(cause) => {
                let inner = Error::new_str(Spanned { span: here.clone(), content: cause });
                let chain = inner.wrap_str(Spanned { span: here, content: msg });
                proof {
                    assert(chain@[1] == chain@.skip(1)[0]);
                }
                Err(chain)
            },
        }
    }
}

} // verus!
