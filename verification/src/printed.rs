//! What the printer returns.

use crate::text_size::{TextRange, TextSize};
use vstd::prelude::*;

verus! {

/// Maps a position of the output to a position of the source.
#[derive(Clone, Copy, Debug, PartialEq, Eq, Structural)]
pub struct SourceMarker {
    /// The position in the source.
    pub source: TextSize,
    /// The position in the output.
    pub dest: TextSize,
}

/// The contents of a [`Printed`].
#[verifier::ext_equal]
pub struct PrintedView {
    pub code: Seq<char>,
    pub range: Option<TextRange>,
    pub sourcemap: Seq<SourceMarker>,
    pub verbatim_ranges: Seq<TextRange>,
}

/// A printed document.
#[derive(Debug, PartialEq, Eq)]
pub struct Printed {
    code: String,
    range: Option<TextRange>,
    sourcemap: Vec<SourceMarker>,
    verbatim_ranges: Vec<TextRange>,
}

impl View for Printed {
    type V = PrintedView;

    closed spec fn view(&self) -> PrintedView {
        PrintedView {
            code: self.code@,
            range: self.range,
            sourcemap: self.sourcemap@,
            verbatim_ranges: self.verbatim_ranges@,
        }
    }
}

impl Printed {
    /// A printed document with the given contents.
    pub fn new(
        code: String,
        range: Option<TextRange>,
        sourcemap: Vec<SourceMarker>,
        verbatim_ranges: Vec<TextRange>,
    ) -> (printed: Self)
        ensures
            printed@ == (PrintedView {
                code: code@,
                range,
                sourcemap: sourcemap@,
                verbatim_ranges: verbatim_ranges@,
            }),
    {
        Printed { code, range, sourcemap, verbatim_ranges }
    }

    /// The printed code.
    pub fn as_code(&self) -> (code: &str)
        ensures
            code@ == self@.code,
    {
        self.code.as_str()
    }

    /// The range of the source that was formatted, or `None` for all of it.
    pub fn range(&self) -> (range: Option<TextRange>)
        ensures
            range == self@.range,
    {
        self.range
    }

    /// The source map.
    pub fn sourcemap(&self) -> (markers: &[SourceMarker])
        ensures
            markers@ == self@.sourcemap,
    {
        self.sourcemap.as_slice()
    }

    /// The ranges of the output that are printed as in the source.
    pub fn verbatim_ranges(&self) -> (ranges: &[TextRange])
        ensures
            ranges@ == self@.verbatim_ranges,
    {
        self.verbatim_ranges.as_slice()
    }
}

} // verus!
