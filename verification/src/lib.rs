//! Source locations that survive string processing, and error chains that
//! render every location they carry as one annotated report.
//!
//! A [`Span`] names a range of bytes in a file. A [`Spanned`] value carries
//! the span it was read from, and its string operations hand on to each
//! part the span of exactly that part. An [`Error`] chains located
//! messages, and its report shows each of them in the text of its file.

pub mod bytes;
pub mod context;
pub mod error;
pub mod laws;
pub mod order;
pub mod position;
pub mod report;
pub mod span;
pub mod spanned;
pub mod text;

pub use crate::bytes::InvalidUtf8;
pub use crate::context::Context;
pub use crate::error::Error;
pub use crate::order::Order;
pub use crate::position::Position;
pub use crate::report::{Annotation, Document, Severity, Snippet, SourceFile};
pub use crate::span::Span;
pub use crate::spanned::Spanned;

use vstd::prelude::*;

verus! {

/// The result of an operation that fails with an [`Error`] unless it says otherwise.
pub type Result<T, E = Error> = std::result::Result<T, E>;

} // verus!
