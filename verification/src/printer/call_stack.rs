//! The stacks that hold what is specific to the parts of the document that are being printed.

use crate::diagnostics::{InvalidDocumentError, PrintError, PrintResult};
use crate::options::IndentStyle;
use crate::printer::indention::Indention;
use crate::printer::stack::{Stack, StackedStack};
use crate::tag::{Align, PrintMode, TagKind};
use vstd::prelude::*;

verus! {

/// What a stack frame stands for.
#[derive(Clone, Copy, Debug, PartialEq, Eq, Structural)]
pub enum StackFrameKind {
    /// The whole document.
    Root,
    /// A part of the document between a start and an end tag.
    Tag(TagKind),
}

/// The arguments that apply to the elements of a part of the document.
#[derive(Clone, Copy, Debug, PartialEq, Eq, Structural)]
pub struct PrintElementArgs {
    pub mode: PrintMode,
}

impl PrintElementArgs {
    /// The arguments for the whole document: expanded mode.
    pub fn new() -> (args: Self)
        ensures
            args.mode == PrintMode::Expanded,
    {
        PrintElementArgs { mode: PrintMode::Expanded }
    }

    /// The mode.
    pub fn mode(self) -> (mode: PrintMode)
        ensures
            mode == self.mode,
    {
        self.mode
    }

    /// These arguments with another mode.
    pub fn with_print_mode(self, mode: PrintMode) -> (args: Self)
        ensures
            args == self.in_mode(mode),
    {
        PrintElementArgs { mode }
    }

    /// These arguments with another mode.
    pub open spec fn in_mode(self, mode: PrintMode) -> Self {
        PrintElementArgs { mode }
    }
}

/// A part of the document that is being printed.
#[derive(Clone, Copy, Debug, PartialEq, Eq, Structural)]
pub struct StackFrame {
    pub kind: StackFrameKind,
    pub args: PrintElementArgs,
}

/// The arguments of the innermost part.
pub open spec fn top_args(frames: Seq<StackFrame>) -> PrintElementArgs {
    frames.last().args
}

/// The kind of the innermost part, or `None` if that is the whole document.
pub open spec fn top_kind(frames: Seq<StackFrame>) -> Option<TagKind> {
    match frames.last().kind {
        StackFrameKind::Root => None,
        StackFrameKind::Tag(kind) => Some(kind),
    }
}

/// The frames with another one for a part of the given kind.
pub open spec fn push_frame(
    frames: Seq<StackFrame>,
    kind: TagKind,
    args: PrintElementArgs,
) -> Seq<StackFrame> {
    frames.push(StackFrame { kind: StackFrameKind::Tag(kind), args })
}

/// The frames after the end of a part of the given kind, or the error if the innermost part is of
/// another kind.
pub open spec fn pop_frame(frames: Seq<StackFrame>, kind: TagKind) -> Result<
    Seq<StackFrame>,
    PrintError,
> {
    match frames.last().kind {
        StackFrameKind::Tag(actual_kind) => if actual_kind == kind {
            Ok(frames.drop_last())
        } else {
            Err(mismatch(kind, Some(actual_kind)))
        },
        StackFrameKind::Root => Err(mismatch(kind, None)),
    }
}

/// The frames after a frame of another kind than expected was popped. The frame for the whole
/// document stays.
pub open spec fn frames_left(frames: Seq<StackFrame>) -> Seq<StackFrame> {
    if frames.last().kind is Root {
        frames
    } else {
        frames.drop_last()
    }
}

/// The error for an end tag that does not match the start tag before it.
pub open spec fn mismatch(end_kind: TagKind, start_kind: Option<TagKind>) -> PrintError {
    PrintError::InvalidDocument(
        match start_kind {
            None => InvalidDocumentError::StartTagMissing { kind: end_kind },
            Some(start_kind) => InvalidDocumentError::StartEndTagMismatch { start_kind, end_kind },
        },
    )
}

/// The parts of the document that are being printed, the innermost on top. The frame at the bottom
/// stands for the whole document and stays there.
#[derive(Debug)]
pub struct CallStack<S> {
    stack: S,
}

/// The call stack of the printer.
pub type PrintCallStack = CallStack<Vec<StackFrame>>;

/// The call stack for measuring, on top of that of the printer.
pub type FitsCallStack<'print> = CallStack<StackedStack<'print, StackFrame>>;

impl<S: Stack<StackFrame>> View for CallStack<S> {
    type V = Seq<StackFrame>;

    closed spec fn view(&self) -> Seq<StackFrame> {
        self.stack.items()
    }
}

impl<S: Stack<StackFrame>> CallStack<S> {
    /// Whether the frame at the bottom stands for the whole document.
    pub closed spec fn valid(&self) -> bool {
        &&& self.stack.valid()
        &&& self.stack.items().len() > 0
        &&& self.stack.items()[0].kind is Root
    }

    /// A valid stack is never empty.
    pub proof fn lemma_valid(&self)
        requires
            self.valid(),
        ensures
            self@.len() > 0,
            self@[0].kind is Root,
    {
    }

    /// Pops the frame at the top and asserts that it is of the given kind. The frame for the whole
    /// document is not popped.
    pub fn pop(&mut self, kind: TagKind) -> (result: PrintResult<PrintElementArgs>)
        requires
            old(self).valid(),
        ensures
            final(self).valid(),
            match result {
                Ok(args) => {
                    &&& args == top_args(old(self)@)
                    &&& pop_frame(old(self)@, kind) == Ok::<_, PrintError>(final(self)@)
                },
                Err(error) => {
                    &&& pop_frame(old(self)@, kind) == Err::<Seq<StackFrame>, _>(error)
                    &&& final(self)@ == frames_left(old(self)@)
                },
            },
    {
        let ghost before = self.stack.items();
        match self.stack.pop() {
            Some(frame) => match frame.kind {
                StackFrameKind::Tag(actual_kind) => if actual_kind == kind {
                    Ok(frame.args)
                } else {
                    Err(Self::invalid_document_error(kind, Some(actual_kind)))
                },
                StackFrameKind::Root => {
                    // Put it back in to guarantee that the stack is never empty
                    self.stack.push(frame);
                    assert(self.stack.items() =~= before);
                    Err(Self::invalid_document_error(kind, None))
                },
            },
            None => Err(Self::invalid_document_error(kind, None)),
        }
    }

    fn invalid_document_error(end_kind: TagKind, start_kind: Option<TagKind>) -> (error: PrintError)
        ensures
            error == mismatch(end_kind, start_kind),
    {
        PrintError::InvalidDocument(
            match start_kind {
                None => InvalidDocumentError::StartTagMissing { kind: end_kind },
                Some(start_kind) => InvalidDocumentError::StartEndTagMismatch {
                    start_kind,
                    end_kind,
                },
            },
        )
    }

    /// Returns the arguments of the frame at the top.
    pub fn top(&self) -> (args: PrintElementArgs)
        requires
            self.valid(),
        ensures
            args == top_args(self@),
    {
        self.stack.top().unwrap().args
    }

    /// Returns the kind of the frame at the top, or `None` if it stands for the whole document.
    pub fn top_kind(&self) -> (kind: Option<TagKind>)
        requires
            self.valid(),
        ensures
            kind == top_kind(self@),
    {
        match self.stack.top().unwrap().kind {
            StackFrameKind::Root => None,
            StackFrameKind::Tag(kind) => Some(kind),
        }
    }

    /// Pushes a frame for a part of the given kind.
    pub fn push(&mut self, kind: TagKind, args: PrintElementArgs)
        requires
            old(self).valid(),
        ensures
            final(self).valid(),
            final(self)@ == push_frame(old(self)@, kind, args),
    {
        self.stack.push(StackFrame { kind: StackFrameKind::Tag(kind), args });
    }
}

impl CallStack<Vec<StackFrame>> {
    /// A stack with a frame for the whole document.
    pub fn new(args: PrintElementArgs) -> (stack: Self)
        ensures
            stack.valid(),
            stack@ == seq![StackFrame { kind: StackFrameKind::Root, args }],
    {
        let mut frames: Vec<StackFrame> = Vec::new();
        frames.push(StackFrame { kind: StackFrameKind::Root, args });
        assert(frames@ =~= seq![StackFrame { kind: StackFrameKind::Root, args }]);
        CallStack { stack: frames }
    }

    /// A stack on top of this one.
    pub fn stacked<'print>(&'print self) -> (stack: FitsCallStack<'print>)
        requires
            self.valid(),
        ensures
            stack.valid(),
            stack@ == self@,
    {
        CallStack { stack: StackedStack::new(self.stack.as_slice()) }
    }
}

/// The indentions of the parts of the document that are being printed.
#[verifier::ext_equal]
pub struct IndentView {
    /// The indentions, the current one last.
    pub indentions: Seq<Indention>,
    /// The indentions that dedents took away, the latest last.
    pub history: Seq<Indention>,
}

impl IndentView {
    /// The current indention.
    pub open spec fn current(self) -> Indention {
        if self.indentions.len() == 0 {
            Indention::Level(0)
        } else {
            self.indentions.last()
        }
    }

    /// The current indention is another one.
    pub open spec fn pushed(self, indention: Indention) -> Self {
        IndentView { indentions: self.indentions.push(indention), ..self }
    }

    /// The current indention is the one before.
    pub open spec fn popped(self) -> Self {
        if self.indentions.len() == 0 {
            self
        } else {
            IndentView { indentions: self.indentions.drop_last(), ..self }
        }
    }

    /// The current indention is taken away, to be restored later.
    pub open spec fn dedented(self) -> Self {
        if self.indentions.len() == 0 {
            self
        } else {
            IndentView {
                indentions: self.indentions.drop_last(),
                history: self.history.push(self.indentions.last()),
            }
        }
    }

    /// The indention that was taken away last is restored.
    pub open spec fn restored(self) -> Self {
        if self.history.len() == 0 {
            self
        } else {
            IndentView {
                indentions: self.indentions.push(self.history.last()),
                history: self.history.drop_last(),
            }
        }
    }
}

/// The indentions of the parts of the document that are being printed, the current one on top.
#[derive(Debug)]
pub struct IndentStack<S> {
    indentions: S,
    /// The indentions that dedents took away.
    history_indentions: S,
}

impl<S: Stack<Indention>> View for IndentStack<S> {
    type V = IndentView;

    closed spec fn view(&self) -> IndentView {
        IndentView {
            indentions: self.indentions.items(),
            history: self.history_indentions.items(),
        }
    }
}

impl<S: Stack<Indention>> IndentStack<S> {
    /// Whether the stacks are in a valid state.
    pub closed spec fn valid(&self) -> bool {
        &&& self.indentions.valid()
        &&& self.history_indentions.valid()
    }

    /// Goes back to the indention before the current one.
    pub fn pop(&mut self)
        requires
            old(self).valid(),
        ensures
            final(self).valid(),
            final(self)@ == old(self)@.popped(),
    {
        self.indentions.pop();
    }

    /// Takes the current indention away until the end of the dedent.
    pub fn start_dedent(&mut self)
        requires
            old(self).valid(),
        ensures
            final(self).valid(),
            final(self)@ == old(self)@.dedented(),
    {
        if let Some(indention) = self.indentions.pop() {
            self.history_indentions.push(indention);
        }
    }

    /// Restores the indention that the dedent took away.
    pub fn end_dedent(&mut self)
        requires
            old(self).valid(),
        ensures
            final(self).valid(),
            final(self)@ == old(self)@.restored(),
    {
        if let Some(indention) = self.history_indentions.pop() {
            self.indentions.push(indention);
        }
    }

    /// Indents by one level.
    pub fn indent(&mut self, indent_style: IndentStyle)
        requires
            old(self).valid(),
            old(self)@.current().next_level(indent_style) <= u16::MAX,
        ensures
            final(self).valid(),
            final(self)@ == old(self)@.pushed(old(self)@.current().incremented(indent_style)),
    {
        let indention = self.indention().increment_level(indent_style);
        self.indentions.push(indention);
    }

    /// Aligns by the spaces of `count`.
    pub fn align(&mut self, count: Align)
        requires
            old(self).valid(),
            old(self)@.current().has_room_to_align(),
        ensures
            final(self).valid(),
            final(self)@ == old(self)@.pushed(old(self)@.current().aligned(count)),
    {
        let indention = self.indention().set_align(count);
        self.indentions.push(indention);
    }

    /// Goes back to no indention.
    pub fn reset_indent(&mut self)
        requires
            old(self).valid(),
        ensures
            final(self).valid(),
            final(self)@ == old(self)@.pushed(Indention::Level(0)),
    {
        self.indentions.push(Indention::new());
    }

    /// Returns the current indention.
    pub fn indention(&self) -> (indention: Indention)
        requires
            self.valid(),
        ensures
            indention == self@.current(),
    {
        match self.indentions.top() {
            Some(indention) => indention,
            None => Indention::new(),
        }
    }
}

/// The indentions for measuring, on top of those of the printer.
pub type FitsIndentStack<'print> = IndentStack<StackedStack<'print, Indention>>;

/// The indentions of the printer.
#[derive(Debug)]
pub struct PrintIndentStack {
    pub stack: IndentStack<Vec<Indention>>,
    /// The indentions of the pending line suffixes, in the order of the suffixes.
    pub suffix_indentions: Vec<Indention>,
}

/// The indentions of the printer.
#[verifier::ext_equal]
pub struct PrintIndentView {
    pub stack: IndentView,
    /// The indentions of the pending line suffixes, in the order of the suffixes.
    pub suffixes: Seq<Indention>,
}

impl PrintIndentView {
    /// The indentions of the pending line suffixes become the current ones, that of the first
    /// suffix on top.
    pub open spec fn flushed(self) -> Self {
        PrintIndentView {
            stack: IndentView {
                indentions: self.stack.indentions + self.suffixes.reverse(),
                ..self.stack
            },
            suffixes: Seq::empty(),
        }
    }
}

impl View for PrintIndentStack {
    type V = PrintIndentView;

    open spec fn view(&self) -> PrintIndentView {
        PrintIndentView { stack: self.stack@, suffixes: self.suffix_indentions@ }
    }
}

impl PrintIndentStack {
    /// Whether the stacks are in a valid state.
    pub open spec fn valid(&self) -> bool {
        self.stack.valid()
    }

    /// A stack with the given indention.
    pub fn new(indention: Indention) -> (stack: Self)
        ensures
            stack.valid(),
            stack@.stack.indentions == seq![indention],
            stack@.stack.history == Seq::<Indention>::empty(),
            stack@.suffixes == Seq::<Indention>::empty(),
    {
        let mut indentions: Vec<Indention> = Vec::new();
        indentions.push(indention);
        assert(indentions@ =~= seq![indention]);
        PrintIndentStack {
            stack: IndentStack { indentions, history_indentions: Vec::new() },
            suffix_indentions: Vec::new(),
        }
    }

    /// Remembers the indention of a line suffix.
    pub fn push_suffix(&mut self, indention: Indention)
        requires
            old(self).valid(),
        ensures
            final(self).valid(),
            final(self)@ == (PrintIndentView {
                suffixes: old(self)@.suffixes.push(indention),
                ..old(self)@
            }),
    {
        self.suffix_indentions.push(indention);
    }

    /// The indentions of the pending line suffixes become the current ones, that of the first
    /// suffix on top.
    pub fn flush_suffixes(&mut self)
        requires
            old(self).valid(),
        ensures
            final(self).valid(),
            final(self)@ == old(self)@.flushed(),
    {
        let ghost before = self@;
        while self.suffix_indentions.len() > 0
            invariant
                self.valid(),
                self@.stack.history == before.stack.history,
                self@.stack.indentions + self@.suffixes.reverse() == before.stack.indentions
                    + before.suffixes.reverse(),
            decreases self.suffix_indentions@.len(),
        {
            let ghost turn = self@;
            if let Some(indention) = self.suffix_indentions.pop() {
                self.stack.indentions.push(indention);
                assert(turn.suffixes.reverse() =~= seq![indention]
                    + self@.suffixes.reverse());
                assert(self@.stack.indentions + self@.suffixes.reverse() =~= turn.stack.indentions
                    + turn.suffixes.reverse());
            }
        }
        assert(self@.stack.indentions + self@.suffixes.reverse() =~= self@.stack.indentions);
        assert(self@ =~= before.flushed());
    }

    /// A stack on top of this one.
    pub fn stacked<'print>(&'print self) -> (stack: FitsIndentStack<'print>)
        requires
            self.valid(),
        ensures
            stack.valid(),
            stack@ == self@.stack,
    {
        IndentStack {
            indentions: StackedStack::new(self.stack.indentions.as_slice()),
            history_indentions: StackedStack::new(self.stack.history_indentions.as_slice()),
        }
    }
}

} // verus!
