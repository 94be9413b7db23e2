//! The state of the printer.

use crate::diagnostics::PrintError;
use crate::printed::SourceMarker;
use crate::printer::group_modes::GroupModes;
use crate::printer::indention::Indention;
use crate::printer::line_suffixes::{LineSuffixes, SuffixEntry};
use crate::tag::{GroupId, PrintMode};
use crate::text_size::{TextRange, TextSize};
use vstd::prelude::*;

verus! {

/// Why printing stops before the end of the document.
#[derive(Clone, Copy, Debug, PartialEq, Eq, Structural)]
pub enum Halt {
    /// The document is malformed.
    Error(PrintError),
    /// The document breaks an assumption of the printer: it refers to a group that comes later, it
    /// lacks the end of content that is to be skipped, it has a variant without content, an item of
    /// a fill does not fit any more when it is measured again, or a length or a nesting exceeds what
    /// the printer can count.
    Unsupported,
}

/// Why printing or measuring stops before the end of the document, and what it leaves behind if the
/// document is malformed.
#[verifier::ext_equal]
pub enum Stop<M> {
    /// The document is malformed. Everything is as it was where the error was found.
    Error(PrintError, M),
    /// The document breaks an assumption of the printer, as [`Halt::Unsupported`] says.
    Unsupported,
}

impl<M> Stop<M> {
    /// What is left behind by an error.
    pub open spec fn left(self) -> M {
        self->Error_1
    }

    /// The same reason, with something else that an error leaves behind.
    pub open spec fn with<N>(self, left: N) -> Stop<N> {
        match self {
            Stop::Error(error, _) => Stop::Error(error, left),
            Stop::Unsupported => Stop::Unsupported,
        }
    }

    /// The reason alone.
    pub open spec fn halt(self) -> Halt {
        match self {
            Stop::Error(error, _) => Halt::Error(error),
            Stop::Unsupported => Halt::Unsupported,
        }
    }
}

/// Whether stopping for the given reason, with what is left behind, is what `expected` says.
pub open spec fn stops<R, M>(expected: Result<R, Stop<M>>, halt: Halt, left: M) -> bool {
    match halt {
        Halt::Error(error) => expected == Err::<R, Stop<M>>(Stop::Error(error, left)),
        Halt::Unsupported => expected == Err::<R, Stop<M>>(Stop::Unsupported),
    }
}

/// State that is global to all elements. Stores the result of the print operation (buffer and
/// mappings) and at what position the printer currently is.
#[derive(Debug)]
pub struct PrinterState<'a> {
    pub buffer: String,
    pub source_markers: Vec<SourceMarker>,
    pub source_position: TextSize,
    /// The indention to print before the next text.
    pub pending_indent: Indention,
    /// Whether to print a space before the next text.
    pub pending_space: bool,
    /// Whether the current group is known to fit on the line.
    pub measured_group_fits: bool,
    pub generated_line: usize,
    pub generated_column: usize,
    /// The width of the current line.
    pub line_width: usize,
    /// Whether an empty line was just printed.
    pub has_empty_line: bool,
    pub line_suffixes: LineSuffixes<'a>,
    pub verbatim_markers: Vec<TextRange>,
    pub group_modes: GroupModes,
}

/// The contents of a [`PrinterState`].
#[verifier::ext_equal]
pub struct StateView {
    pub buffer: Seq<char>,
    pub source_markers: Seq<SourceMarker>,
    pub source_position: TextSize,
    pub pending_indent: Indention,
    pub pending_space: bool,
    pub measured_group_fits: bool,
    pub generated_line: int,
    pub generated_column: int,
    pub line_width: int,
    pub has_empty_line: bool,
    pub line_suffixes: Seq<SuffixEntry>,
    pub verbatim_markers: Seq<TextRange>,
    pub group_modes: Map<GroupId, PrintMode>,
}

impl<'a> View for PrinterState<'a> {
    type V = StateView;

    open spec fn view(&self) -> StateView {
        StateView {
            buffer: self.buffer@,
            source_markers: self.source_markers@,
            source_position: self.source_position,
            pending_indent: self.pending_indent,
            pending_space: self.pending_space,
            measured_group_fits: self.measured_group_fits,
            generated_line: self.generated_line as int,
            generated_column: self.generated_column as int,
            line_width: self.line_width as int,
            has_empty_line: self.has_empty_line,
            line_suffixes: self.line_suffixes@,
            verbatim_markers: self.verbatim_markers@,
            group_modes: self.group_modes@,
        }
    }
}

/// The state before anything is printed.
pub open spec fn initial_state() -> StateView {
    StateView {
        buffer: Seq::empty(),
        source_markers: Seq::empty(),
        source_position: TextSize { raw: 0 },
        pending_indent: Indention::Level(0),
        pending_space: false,
        measured_group_fits: false,
        generated_line: 0,
        generated_column: 0,
        line_width: 0,
        has_empty_line: false,
        line_suffixes: Seq::empty(),
        verbatim_markers: Seq::empty(),
        group_modes: Map::empty(),
    }
}

impl<'a> Default for PrinterState<'a> {
    /// The state before anything is printed.
    fn default() -> (state: Self)
        ensures
            state@ == initial_state(),
    {
        PrinterState {
            buffer: String::new(),
            source_markers: Vec::new(),
            source_position: TextSize { raw: 0 },
            pending_indent: Indention::new(),
            pending_space: false,
            measured_group_fits: false,
            generated_line: 0,
            generated_column: 0,
            line_width: 0,
            has_empty_line: false,
            line_suffixes: LineSuffixes::new(),
            verbatim_markers: Vec::new(),
            group_modes: GroupModes::new(),
        }
    }
}

} // verus!
