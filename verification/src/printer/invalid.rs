//! Errors of malformed documents.

use crate::diagnostics::{ActualStart, InvalidDocumentError, PrintError, PrintResult};
use crate::format_element::FormatElement;
use crate::tag::TagKind;
use vstd::prelude::*;

verus! {

/// The error for a part that does not end where it should: `start_tag` is the innermost part that
/// is still open.
pub open spec fn end_error(end_tag: TagKind, start_tag: Option<TagKind>) -> PrintError {
    PrintError::InvalidDocument(
        match start_tag {
            None => InvalidDocumentError::StartTagMissing { kind: end_tag },
            Some(kind) => InvalidDocumentError::StartEndTagMismatch {
                start_kind: end_tag,
                end_kind: kind,
            },
        },
    )
}

/// What stands where the start of a part is expected.
pub open spec fn actual_start(actual: Option<FormatElement>) -> ActualStart {
    match actual {
        None => ActualStart::EndOfDocument,
        Some(FormatElement::Tag(tag)) => if tag.starts() {
            ActualStart::Start(tag.marks())
        } else {
            ActualStart::End(tag.marks())
        },
        Some(_) => ActualStart::Content,
    }
}

/// The error for a part that does not start where it should.
pub open spec fn start_error(expected: TagKind, actual: Option<FormatElement>) -> PrintError {
    PrintError::InvalidDocument(
        InvalidDocumentError::ExpectedStart {
            expected_start: expected,
            actual: actual_start(actual),
        },
    )
}

/// The error for a part that does not end where it should: `start_tag` is the innermost part that
/// is still open.
pub fn invalid_end_tag<R>(end_tag: TagKind, start_tag: Option<TagKind>) -> (result: PrintResult<R>)
    ensures
        result == Err::<R, PrintError>(end_error(end_tag, start_tag)),
{
    Err(
        PrintError::InvalidDocument(
            match start_tag {
                None => InvalidDocumentError::StartTagMissing { kind: end_tag },
                Some(kind) => InvalidDocumentError::StartEndTagMismatch {
                    start_kind: end_tag,
                    end_kind: kind,
                },
            },
        ),
    )
}

/// The error for a part that does not start where it should.
pub fn invalid_start_tag<R>(expected: TagKind, actual: Option<&FormatElement>) -> (result:
    PrintResult<R>)
    ensures
        result == Err::<R, PrintError>(
            start_error(
                expected,
                match actual {
                    Some(element) => Some(*element),
                    None => None,
                },
            ),
        ),
{
    let start = match actual {
        None => ActualStart::EndOfDocument,
        Some(FormatElement::Tag(tag)) => if tag.is_start() {
            ActualStart::Start(tag.kind())
        } else {
            ActualStart::End(tag.kind())
        },
        Some(_) => ActualStart::Content,
    };

    Err(
        PrintError::InvalidDocument(
            InvalidDocumentError::ExpectedStart { actual: start, expected_start: expected },
        ),
    )
}

} // verus!
