//! Errors.

use crate::tag::TagKind;
use vstd::prelude::*;

verus! {

/// What stands in a document where the start of a part is expected.
#[derive(Clone, Copy, Debug, PartialEq, Eq, Structural)]
pub enum ActualStart {
    /// Neither a start nor an end.
    Content,
    /// The start of another part.
    Start(TagKind),
    /// The end of a part.
    End(TagKind),
    /// Nothing: the document ends here.
    EndOfDocument,
}

/// How a document is malformed.
#[derive(Clone, Copy, Debug, PartialEq, Eq, Structural)]
pub enum InvalidDocumentError {
    /// The kind of an end tag is not the kind of the start tag before it.
    StartEndTagMismatch { start_kind: TagKind, end_kind: TagKind },
    /// There is an end tag without a start tag.
    StartTagMissing { kind: TagKind },
    /// Another element stands where a start tag is expected.
    ExpectedStart { expected_start: TagKind, actual: ActualStart },
}

/// Why a document cannot be printed.
#[derive(Clone, Copy, Debug, PartialEq, Eq, Structural)]
pub enum PrintError {
    InvalidDocument(InvalidDocumentError),
}

/// The result of printing.
pub type PrintResult<T> = Result<T, PrintError>;

/// Why an object cannot be formatted.
#[derive(Clone, Copy, Debug, PartialEq, Eq, Structural)]
pub enum FormatError {
    /// The object has a syntax error.
    SyntaxError,
    /// The range to format is not within the source.
    RangeError,
    /// The document that was created is malformed.
    InvalidDocument(InvalidDocumentError),
    /// The formatter ran into a layout that is too deep.
    PoorLayout,
}

/// The result of formatting.
pub type FormatResult<T> = Result<T, FormatError>;

} // verus!
