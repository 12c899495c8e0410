//! A comment-preserving pretty-printer for JSON with comments.
//!
//! The printer works on the bytes of a source text, on the index of the
//! values that a parser found in it, and on the byte ranges of its comments.
//! It renders every array and object on one line or on several, moves each
//! comment to its place in the new layout, and copies scalars as they stand.
//!
//! [`format_text`] reads a text and prints it. [`Formatter`] is the printer
//! itself, with one operation for each of its steps. The modules `layout`
//! and `render` state what is printed as a function of the text; `laws`,
//! `agreement` and `lines` hold what is proved of it.

pub mod agreement;
pub mod comment;
pub mod diagnostic;
pub mod document;
pub mod formatter;
pub mod laws;
pub mod layout;
pub mod ledger;
pub mod lines;
pub mod parse;
pub mod render;
pub mod text;

pub use crate::document::{Document, ValueEntry, ValueKind};
pub use crate::formatter::{Formatter, Inconsistent};
pub use crate::ledger::{CommentLedger, CommentRange};
pub use crate::parse::{format_document, format_text, FormatError};
