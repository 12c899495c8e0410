//! Reading a text with `nojson` and printing what it holds.

use crate::agreement::document_agrees;
use crate::diagnostic::format_json_parse_error;
use crate::document::{Document, ValueEntry, ValueKind};
use crate::formatter::{Formatter, Inconsistent};
use crate::layout::flatten;
use crate::ledger::ledger_of;
use crate::render::render_document;
use core::ops::Range;
use vstd::prelude::*;
use vstd::string::StringSliceAdditionalSpecFns;

verus! {

/// `nojson::JsonParseError`, the error with which the parser refuses a
/// text. Nothing is claimed of what it holds.
#[verifier::external_type_specification]
#[verifier::external_body]
pub struct ExJsonParseError(nojson::JsonParseError);

/// What `nojson::RawJson::parse_jsonc` finds in a text: the values in the
/// order of its index and the ranges of the comments, or nothing where it
/// refuses the text.
pub uninterp spec fn jsonc_index(text: Seq<char>) -> Option<(Seq<ValueEntry>, Seq<Range<usize>>)>;

/// Calls `nojson::RawJson::parse_jsonc` and copies, for each value of the
/// index that it builds, the kind, the position and the length of the raw
/// text. The contract only gives the outcome its name: it claims that the
/// same text yields the same index and comments, and nothing about them.
#[verifier::external_body]
fn parse_jsonc(text: &str) -> (parsed: Result<
    (Document, Vec<Range<usize>>),
    nojson::JsonParseError,
>)
    ensures
        match parsed {
            Ok((document, comments)) => jsonc_index(text@) == Some((document@, comments@)),
            Err(_) => jsonc_index(text@) is None,
        },
{
    let (json, comments) = nojson::RawJson::parse_jsonc(text)?;
    let values = (0..).map_while(|i| json.get_value_by_index(i)).map(|v| ValueEntry {
        kind: match v.kind() {
            nojson::JsonValueKind::Null => ValueKind::Null,
            nojson::JsonValueKind::Boolean => ValueKind::Boolean,
            nojson::JsonValueKind::Integer => ValueKind::Integer,
            nojson::JsonValueKind::Float => ValueKind::Float,
            nojson::JsonValueKind::String => ValueKind::String,
            nojson::JsonValueKind::Array => ValueKind::Array,
            nojson::JsonValueKind::Object => ValueKind::Object,
        },
        position: v.position(),
        len: v.as_raw_str().len(),
    }).collect();
    Ok((Document { values }, comments))
}

/// Prints a document: the bytes of its top-level value in the new layout,
/// of the comments around it and of a final line feed. Fails where the
/// text, the values and the comments do not agree, and never for a document
/// that agrees with its text as a parser's does.
pub fn format_document(text: &str, document: &Document, comment_ranges: Vec<Range<usize>>) -> (result:
    Result<Vec<u8>, Inconsistent>)
    ensures
        match render_document(text.spec_bytes(), document@, ledger_of(comment_ranges@)) {
            Some(pieces) => result is Ok && result->Ok_0@ == flatten(text.spec_bytes(), pieces),
            None => result is Err,
        },
        document_agrees(text.spec_bytes(), document@, ledger_of(comment_ranges@)) ==> result is Ok,
{
    let mut formatter = Formatter::new(text, comment_ranges);
    match formatter.format(document) {
        Ok(()) => {
            let out = formatter.into_output();
            assert(out@ == Seq::<u8>::empty() + out@);
            Ok(out)
        },
        Err(e) => Err(e),
    }
}

/// Why a text could not be printed.
#[derive(Debug, PartialEq, Eq)]
pub enum FormatError {
    /// The parser refused the text. The message names the place and shows
    /// the line.
    Parse(String),
    /// The parser's values and comments do not agree with the text.
    Inconsistent,
}

/// Reads `text` as JSON with comments and prints it in the new layout,
/// without its comments if `strip_comments` is set. Fails with a message
/// where the parser refuses the text, and with `Inconsistent` where what
/// the parser found cannot be printed: that is never so where it agrees
/// with the text.
pub fn format_text(text: &str, strip_comments: bool) -> (result: Result<Vec<u8>, FormatError>)
    ensures
        match jsonc_index(text@) {
            None => result matches Err(FormatError::Parse(_)),
            Some((values, comments)) => match render_document(
                text.spec_bytes(),
                values,
                ledger_of(
                    if strip_comments {
                        Seq::empty()
                    } else {
                        comments
                    },
                ),
            ) {
                Some(pieces) => result is Ok && result->Ok_0@ == flatten(
                    text.spec_bytes(),
                    pieces,
                ),
                None => result matches Err(FormatError::Inconsistent),
            },
        },
        jsonc_index(text@) matches Some((values, comments)) && document_agrees(
            text.spec_bytes(),
            values,
            ledger_of(
                if strip_comments {
                    Seq::empty()
                } else {
                    comments
                },
            ),
        ) ==> result is Ok,
{
    match parse_jsonc(text) {
        Err(error) => Err(FormatError::Parse(format_json_parse_error(text, &error))),
        Ok((document, comments)) => {
            let mut comment_ranges = comments;
            if strip_comments {
                comment_ranges.clear();
            }
            match format_document(text, &document, comment_ranges) {
                Ok(out) => Ok(out),
                Err(_) => Err(FormatError::Inconsistent),
            }
        },
    }
}

} // verus!
