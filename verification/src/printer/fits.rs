//! Measures whether content fits on a line.

use crate::diagnostics::PrintError;
use crate::format_element::{group_counts, total_size, FormatElement, LineMode};
use crate::options::PrinterOptions;
use crate::printer::call_stack::{
    frames_left, pop_frame, push_frame, top_args, top_kind, FitsCallStack, FitsIndentStack,
    IndentView, PrintCallStack, PrintIndentStack, PrintIndentView, StackFrame,
};
use crate::printer::group_modes::GroupModes;
use crate::printer::indention::Indention;
use crate::printer::invalid::{end_error, invalid_end_tag, invalid_start_tag, start_error};
use crate::printer::queue::{
    entry_ends, lemma_pop_size, lemma_split_content, next_is, split_content, top_element, FitsQueue,
    PrintQueue,
};
use crate::printer::state::{stops, Halt, PrinterState, StateView, Stop};
use crate::printer::width::{char_columns, columns};
use crate::tag::{DedentMode, GroupId, GroupMode, PrintMode, Tag, TagKind};
use vstd::prelude::*;

verus! {

/// Whether an element fits on the line.
#[derive(Clone, Copy, Debug, PartialEq, Eq, Structural)]
pub enum Fits {
    /// It does, and nothing that follows can change that.
    Yes,
    /// It does not.
    No,
    /// That depends on the elements that follow.
    Maybe,
}

impl vstd::std_specs::convert::FromSpecImpl<bool> for Fits {
    open spec fn obeys_from_spec() -> bool {
        true
    }

    open spec fn from_spec(value: bool) -> Self {
        if value {
            Fits::Yes
        } else {
            Fits::No
        }
    }
}

impl From<bool> for Fits {
    fn from(value: bool) -> (fits: Self) {
        match value {
            true => Fits::Yes,
            false => Fits::No,
        }
    }
}

/// Where measuring ends.
#[derive(Clone, Copy, Debug, PartialEq, Eq, Structural)]
pub enum FitsEnd {
    /// At the end of the document.
    Document,
    /// At the end of the entry that comes next, where `depth` entries are open.
    Entry { depth: usize },
    /// Here: the end of the entry was reached.
    Done,
}

/// Whether measuring ends behind `element`, and where it ends if it does not.
pub open spec fn ends_behind(end: FitsEnd, element: FormatElement) -> Result<
    (bool, FitsEnd),
    Halt,
> {
    match end {
        FitsEnd::Document => Ok((false, end)),
        FitsEnd::Done => Ok((true, end)),
        FitsEnd::Entry { depth } => match element {
            FormatElement::Tag(Tag::StartEntry) => if depth == usize::MAX {
                Err(Halt::Unsupported)
            } else {
                Ok((false, FitsEnd::Entry { depth: (depth + 1) as usize }))
            },
            FormatElement::Tag(Tag::EndEntry) => if depth == 0 {
                Err(Halt::Error(end_error(TagKind::Entry, None)))
            } else if depth == 1 {
                Ok((true, FitsEnd::Done))
            } else {
                Ok((false, FitsEnd::Entry { depth: (depth - 1) as usize }))
            },
            _ => Ok((false, end)),
        },
    }
}

impl FitsEnd {
    /// Whether measuring ends behind `element`.
    fn is_end(&mut self, element: &FormatElement) -> (result: Result<bool, Halt>)
        ensures
            match result {
                Ok(ends) => ends_behind(*old(self), *element) == Ok::<(bool, FitsEnd), Halt>(
                    (ends, *final(self)),
                ),
                Err(halt) => ends_behind(*old(self), *element) == Err::<(bool, FitsEnd), Halt>(
                    halt,
                ) && *final(self) == *old(self),
            },
    {
        match *self {
            FitsEnd::Document => Ok(false),
            FitsEnd::Done => Ok(true),
            FitsEnd::Entry { depth } => match element {
                FormatElement::Tag(Tag::StartEntry) => {
                    if depth == usize::MAX {
                        return Err(Halt::Unsupported);
                    }
                    *self = FitsEnd::Entry { depth: depth + 1 };
                    Ok(false)
                },
                FormatElement::Tag(Tag::EndEntry) => {
                    if depth == 0 {
                        return invalid_end(TagKind::Entry, None);
                    }
                    if depth == 1 {
                        *self = FitsEnd::Done;
                        Ok(true)
                    } else {
                        *self = FitsEnd::Entry { depth: depth - 1 };
                        Ok(false)
                    }
                },
                _ => Ok(false),
            },
        }
    }
}

/// [`invalid_end_tag`] as a reason to stop.
pub(crate) fn invalid_end<R>(end_tag: TagKind, start_tag: Option<TagKind>) -> (result: Result<
    R,
    Halt,
>)
    ensures
        result == Err::<R, Halt>(Halt::Error(end_error(end_tag, start_tag))),
{
    match invalid_end_tag::<R>(end_tag, start_tag) {
        Ok(value) => Ok(value),
        Err(error) => Err(Halt::Error(error)),
    }
}

/// [`invalid_start_tag`] as a reason to stop.
pub(crate) fn invalid_start<R>(expected: TagKind, actual: Option<&FormatElement>) -> (result:
    Result<R, Halt>)
    ensures
        result == Err::<R, Halt>(
            Halt::Error(
                start_error(
                    expected,
                    match actual {
                        Some(element) => Some(*element),
                        None => None,
                    },
                ),
            ),
        ),
{
    match invalid_start_tag::<R>(expected, actual) {
        Ok(value) => Ok(value),
        Err(error) => Err(Halt::Error(error)),
    }
}

/// What is measured, and how far measuring has come.
#[verifier::ext_equal]
pub struct FitsView {
    /// The indention that comes before the next text.
    pub pending_indent: Indention,
    /// Whether a space comes before the next text.
    pub pending_space: bool,
    /// Whether there are pending line suffixes.
    pub has_line_suffix: bool,
    /// The width of the line.
    pub line_width: int,
    /// The elements that follow.
    pub queue: Seq<FormatElement>,
    /// The parts of the document that are being measured.
    pub stack: Seq<StackFrame>,
    pub indents: IndentView,
    pub group_modes: Map<GroupId, PrintMode>,
    /// Whether nothing may be expanded.
    pub must_be_flat: bool,
}

/// What is measured where the printer is in the given state.
pub open spec fn measuring(
    state: StateView,
    stack: Seq<StackFrame>,
    indents: PrintIndentView,
    queue: Seq<FormatElement>,
    must_be_flat: bool,
) -> FitsView {
    FitsView {
        pending_indent: state.pending_indent,
        pending_space: state.pending_space,
        has_line_suffix: state.line_suffixes.len() > 0,
        line_width: state.line_width,
        queue,
        stack,
        indents: indents.stack,
        group_modes: state.group_modes,
        must_be_flat,
    }
}

/// The width of a line that has the given width after the characters up to the first line break,
/// and whether there is one.
pub open spec fn measured(options: PrinterOptions, width: int, text: Seq<char>) -> Result<
    (int, bool),
    Halt,
>
    decreases text.len(),
{
    if text.len() == 0 {
        Ok((width, false))
    } else {
        match measured(options, width, text.drop_last()) {
            Ok((before, false)) => if text.last() == '\n' {
                Ok((before, true))
            } else if before + columns(options, text.last()) > usize::MAX {
                Err(Halt::Unsupported)
            } else {
                Ok((before + columns(options, text.last()), false))
            },
            stopped => stopped,
        }
    }
}

/// The width of the line with what comes before the next text.
pub open spec fn pending_width(options: PrinterOptions, view: FitsView) -> int {
    view.line_width + view.pending_indent.levels() * options.indent_width.columns
        + view.pending_indent.spaces() + (if view.pending_space {
        1int
    } else {
        0
    })
}

/// Whether a text fits. A text that breaks the line fits if the part before the line break does.
pub open spec fn fits_text(options: PrinterOptions, view: FitsView, text: Seq<char>) -> Result<
    (Fits, FitsView),
    Stop<FitsView>,
> {
    let start = pending_width(options, view);
    if start > usize::MAX {
        Err(Stop::Unsupported)
    } else {
        match measured(options, start, text) {
            Err(_) => Err(Stop::Unsupported),
            Ok((line_width, breaks)) => {
                let after = FitsView { pending_indent: Indention::Level(0), line_width, ..view };
                if line_width > options.print_width.columns {
                    Ok((Fits::No, after))
                } else if breaks {
                    if view.must_be_flat {
                        Ok((Fits::No, after))
                    } else {
                        Ok((Fits::Yes, after))
                    }
                } else {
                    Ok((Fits::Maybe, FitsView { pending_space: false, ..after }))
                }
            },
        }
    }
}

/// The mode of a group that an element refers to, or of the enclosing group if it is not known.
pub open spec fn measured_mode(view: FitsView, group_id: Option<GroupId>) -> PrintMode {
    match group_id {
        Some(id) if view.group_modes.contains_key(id) => view.group_modes[id],
        _ => top_args(view.stack).mode,
    }
}

/// Measuring goes on with another part of the document on the stack.
pub open spec fn goes_on_in(view: FitsView, kind: TagKind, mode: PrintMode) -> Result<
    (Fits, FitsView),
    Stop<FitsView>,
> {
    let args = top_args(view.stack).in_mode(mode);
    Ok((Fits::Maybe, FitsView { stack: push_frame(view.stack, kind, args), ..view }))
}

/// Measuring goes on behind the end of a part of the document.
pub open spec fn goes_on_behind(view: FitsView, kind: TagKind) -> Result<
    (Fits, FitsView),
    Stop<FitsView>,
> {
    match pop_frame(view.stack, kind) {
        Ok(stack) => Ok((Fits::Maybe, FitsView { stack, ..view })),
        Err(error) => Err(
            Stop::Error(error, FitsView { stack: frames_left(view.stack), ..view }),
        ),
    }
}

/// The view with one more level of indention.
pub open spec fn measure_indent(options: PrinterOptions, view: FitsView) -> Result<
    FitsView,
    Stop<FitsView>,
> {
    if view.indents.current().next_level(options.indent_style) > u16::MAX {
        Err(Stop::Unsupported)
    } else {
        Ok(
            FitsView {
                indents: view.indents.pushed(
                    view.indents.current().incremented(options.indent_style),
                ),
                ..view
            },
        )
    }
}

/// Whether a start tag fits, and what measuring goes on with.
pub open spec fn fits_start(options: PrinterOptions, view: FitsView, tag: Tag) -> Result<
    (Fits, FitsView),
    Stop<FitsView>,
> {
    let mode = top_args(view.stack).mode;
    match tag {
        Tag::StartIndent => match measure_indent(options, view) {
            Err(stop) => Err(stop),
            Ok(indented) => goes_on_in(indented, TagKind::Indent, mode),
        },
        Tag::StartDedent(DedentMode::Level) => goes_on_in(
            FitsView { indents: view.indents.dedented(), ..view },
            TagKind::Dedent,
            mode,
        ),
        Tag::StartDedent(DedentMode::Root) => goes_on_in(
            FitsView { indents: view.indents.pushed(Indention::Level(0)), ..view },
            TagKind::Dedent,
            mode,
        ),
        Tag::StartAlign(align) => if !view.indents.current().has_room_to_align() {
            Err(Stop::Unsupported)
        } else {
            goes_on_in(
                FitsView {
                    indents: view.indents.pushed(view.indents.current().aligned(align)),
                    ..view
                },
                TagKind::Align,
                mode,
            )
        },
        Tag::StartGroup(group) => if view.must_be_flat && group.mode != GroupMode::Flat {
            Ok((Fits::No, view))
        } else {
            let group_mode = if group.mode != GroupMode::Flat {
                PrintMode::Expanded
            } else {
                mode
            };
            let group_modes = match group.id {
                Some(id) => view.group_modes.insert(id, group_mode),
                None => view.group_modes,
            };
            goes_on_in(FitsView { group_modes, ..view }, TagKind::Group, group_mode)
        },
        Tag::StartConditionalContent(condition) => if measured_mode(view, condition.group_id)
            != condition.mode {
            match split_content(view.queue, TagKind::ConditionalContent, 1) {
                Some((_, rest)) => Ok((Fits::Maybe, FitsView { queue: rest, ..view })),
                None => Err(Stop::Unsupported),
            }
        } else {
            goes_on_in(view, TagKind::ConditionalContent, mode)
        },
        Tag::StartIndentIfGroupBreaks(id) => match measured_mode(view, Some(id)) {
            PrintMode::Flat => goes_on_in(view, TagKind::IndentIfGroupBreaks, mode),
            PrintMode::Expanded => match measure_indent(options, view) {
                Err(stop) => Err(stop),
                Ok(indented) => goes_on_in(indented, TagKind::IndentIfGroupBreaks, mode),
            },
        },
        Tag::StartLineSuffix => match split_content(view.queue, TagKind::LineSuffix, 1) {
            Some((_, rest)) => Ok(
                (Fits::Maybe, FitsView { queue: rest, has_line_suffix: true, ..view }),
            ),
            None => Err(Stop::Unsupported),
        },
        _ => goes_on_in(view, tag.marks(), mode),
    }
}

/// Whether an end tag fits, and what measuring goes on with.
pub open spec fn fits_end(view: FitsView, tag: Tag) -> Result<
    (Fits, FitsView),
    Stop<FitsView>,
> {
    match tag {
        Tag::EndLineSuffix => Err(
            Stop::Error(end_error(TagKind::LineSuffix, top_kind(view.stack)), view),
        ),
        Tag::EndIndentIfGroupBreaks(id) => match measured_mode(view, Some(id)) {
            PrintMode::Flat => goes_on_behind(view, TagKind::IndentIfGroupBreaks),
            PrintMode::Expanded => goes_on_behind(
                FitsView { indents: view.indents.popped(), ..view },
                TagKind::IndentIfGroupBreaks,
            ),
        },
        Tag::EndIndent | Tag::EndAlign => match goes_on_behind(view, tag.marks()) {
            Err(stop) => Err(stop),
            Ok((fits, after)) => Ok(
                (fits, FitsView { indents: view.indents.popped(), ..after }),
            ),
        },
        Tag::EndDedent(DedentMode::Level) => goes_on_behind(
            FitsView { indents: view.indents.restored(), ..view },
            TagKind::Dedent,
        ),
        _ => goes_on_behind(view, tag.marks()),
    }
}

/// Whether a line break fits. Content up to the first line break that is printed fits.
pub open spec fn fits_line(view: FitsView, line_mode: LineMode) -> (Fits, FitsView) {
    if top_args(view.stack).mode == PrintMode::Flat {
        match line_mode {
            LineMode::SoftOrSpace => (Fits::Maybe, FitsView { pending_space: true, ..view }),
            LineMode::Soft => (Fits::Maybe, view),
            LineMode::Hard | LineMode::Empty => (Fits::Yes, view),
        }
    } else {
        (Fits::Yes, view)
    }
}

/// Whether an element fits on the line, and what measuring goes on with.
pub open spec fn fits_element(options: PrinterOptions, view: FitsView, element: FormatElement) -> Result<
    (Fits, FitsView),
    Stop<FitsView>,
> {
    match element {
        FormatElement::Space => Ok(
            (
                Fits::Maybe,
                if view.line_width > 0 {
                    FitsView { pending_space: true, ..view }
                } else {
                    view
                },
            ),
        ),
        FormatElement::HardSpace => if view.line_width == usize::MAX {
            Err(Stop::Unsupported)
        } else {
            let after = FitsView { line_width: view.line_width + 1, ..view };
            if after.line_width > options.print_width.columns {
                Ok((Fits::No, after))
            } else {
                Ok((Fits::Maybe, after))
            }
        },
        FormatElement::Line(line_mode) => Ok(fits_line(view, line_mode)),
        FormatElement::StaticText { text } => fits_text(options, view, text@),
        FormatElement::DynamicText { text, .. } => fits_text(options, view, text@),
        FormatElement::LocatedTokenText { slice, .. } => fits_text(options, view, slice@),
        FormatElement::LineSuffixBoundary => if view.has_line_suffix {
            Ok((Fits::No, view))
        } else {
            Ok((Fits::Maybe, view))
        },
        FormatElement::ExpandParent => if view.must_be_flat {
            Ok((Fits::No, view))
        } else {
            Ok((Fits::Maybe, view))
        },
        FormatElement::BestFitting(best_fitting) => if best_fitting.layouts().len() == 0 {
            Err(Stop::Unsupported)
        } else {
            let variant = match top_args(view.stack).mode {
                PrintMode::Flat => best_fitting.layouts().first(),
                PrintMode::Expanded => best_fitting.layouts().last(),
            };
            if variant@.len() == 0 {
                Err(Stop::Error(start_error(TagKind::Entry, None), view))
            } else if variant@[0] != FormatElement::Tag(Tag::StartEntry) {
                Err(Stop::Error(start_error(TagKind::Entry, Some(variant@[0])), view))
            } else {
                Ok((Fits::Maybe, FitsView { queue: variant@ + view.queue, ..view }))
            }
        },
        FormatElement::Interned(content) => Ok(
            (Fits::Maybe, FitsView { queue: content@ + view.queue, ..view }),
        ),
        FormatElement::Tag(tag) => if tag.starts() {
            fits_start(options, view, tag)
        } else {
            fits_end(view, tag)
        },
    }
}

/// Measuring an element leaves less to measure.
pub proof fn lemma_fits_element_progress(options: PrinterOptions, view: FitsView)
    requires
        view.queue.len() > 0,
    ensures
        fits_element(
            options,
            FitsView { queue: view.queue.drop_first(), ..view },
            view.queue[0],
        ) matches Ok((_, after)) ==> total_size(after.queue) < total_size(view.queue),
{
    let rest = view.queue.drop_first();
    lemma_pop_size(view.queue);
    lemma_split_content(rest, TagKind::ConditionalContent, 1);
    lemma_split_content(rest, TagKind::LineSuffix, 1);
    match view.queue[0] {
        FormatElement::BestFitting(best_fitting) => {
            broadcast use group_counts;

            let layouts = best_fitting.layouts();
            if layouts.len() > 0 {
                assert(layouts.first() == layouts[0]);
                assert(layouts.last() == layouts[layouts.len() - 1]);
                assert(total_size(layouts[0]@ + rest) == total_size(layouts[0]@) + total_size(
                    rest,
                ));
                assert(total_size(layouts[layouts.len() - 1]@ + rest) == total_size(
                    layouts[layouts.len() - 1]@,
                ) + total_size(rest));
            }
        },
        _ => {},
    }
}

/// Whether the content up to the first line break that is printed, or up to the end, fits on the
/// line.
pub open spec fn fits_content(options: PrinterOptions, view: FitsView, end: FitsEnd) -> Result<
    (bool, FitsView, FitsEnd),
    Stop<(FitsView, FitsEnd)>,
>
    decreases total_size(view.queue),
{
    if view.queue.len() == 0 {
        Ok((true, view, end))
    } else {
        let element = view.queue[0];
        let popped = FitsView { queue: view.queue.drop_first(), ..view };
        proof {
            lemma_fits_element_progress(options, view);
        }
        match fits_element(options, popped, element) {
            Err(stop) => Err(stop.with((stop.left(), end))),
            Ok((Fits::Yes, after)) => Ok((true, after, end)),
            Ok((Fits::No, after)) => Ok((false, after, end)),
            Ok((Fits::Maybe, after)) => match ends_behind(end, element) {
                Err(Halt::Error(error)) => Err(Stop::Error(error, (after, end))),
                Err(Halt::Unsupported) => Err(Stop::Unsupported),
                Ok((true, new_end)) => Ok((true, after, new_end)),
                Ok((false, new_end)) => fits_content(options, after, new_end),
            },
        }
    }
}

/// Whether the end of measuring comes in the queue. Returns `None` if more entries are open than
/// can be counted.
pub open spec fn end_follows(end: FitsEnd, queue: Seq<FormatElement>) -> Option<bool> {
    match end {
        FitsEnd::Entry { depth } => entry_ends(queue, depth as nat),
        _ => Some(true),
    }
}

/// Whether the next entry fits in the given mode. An entry whose end is missing is an error, also
/// where measuring stops before.
pub open spec fn fits_entry(options: PrinterOptions, view: FitsView, mode: PrintMode) -> Result<
    (bool, FitsView),
    Stop<FitsView>,
> {
    if !next_is(view.queue, Tag::StartEntry) {
        Err(Stop::Error(start_error(TagKind::Entry, top_element(view.queue)), view))
    } else {
        let args = top_args(view.stack).in_mode(mode);
        let start = FitsView { stack: push_frame(view.stack, TagKind::Fill, args), ..view };
        match fits_content(options, start, FitsEnd::Entry { depth: 0 }) {
            Err(stop) => Err(stop.with(stop.left().0)),
            Ok((fits, after, FitsEnd::Done)) => match pop_frame(after.stack, TagKind::Fill) {
                Ok(stack) => Ok((fits, FitsView { stack, ..after })),
                Err(error) => Err(
                    Stop::Error(error, FitsView { stack: frames_left(after.stack), ..after }),
                ),
            },
            Ok((fits, after, end)) => match end_follows(end, after.queue) {
                None => Err(Stop::Unsupported),
                Some(false) => Err(
                    Stop::Error(end_error(TagKind::Entry, top_kind(after.stack)), after),
                ),
                Some(true) => Ok((fits, after)),
            },
        }
    }
}

/// State used when measuring if a group fits on a single line.
#[derive(Debug)]
pub struct FitsState {
    pub pending_indent: Indention,
    pub pending_space: bool,
    pub has_line_suffix: bool,
    pub line_width: usize,
}

/// Measures whether content fits on the line, without printing it. Only the modes of the groups
/// that are measured change.
#[must_use]
#[derive(Debug)]
pub struct FitsMeasurer<'a, 'print> {
    pub state: FitsState,
    pub queue: FitsQueue<'a, 'print>,
    pub stack: FitsCallStack<'print>,
    pub indent_stack: FitsIndentStack<'print>,
    pub options: PrinterOptions,
    pub group_modes: GroupModes,
    pub must_be_flat: bool,
}

impl<'a, 'print> View for FitsMeasurer<'a, 'print> {
    type V = FitsView;

    open spec fn view(&self) -> FitsView {
        FitsView {
            pending_indent: self.state.pending_indent,
            pending_space: self.state.pending_space,
            has_line_suffix: self.state.has_line_suffix,
            line_width: self.state.line_width as int,
            queue: self.queue.elements(),
            stack: self.stack@,
            indents: self.indent_stack@,
            group_modes: self.group_modes@,
            must_be_flat: self.must_be_flat,
        }
    }
}

/// Whether `result` and the new view are what `expected` says.
pub open spec fn fits_agrees<R>(
    expected: Result<(R, FitsView), Stop<FitsView>>,
    result: Result<R, Halt>,
    view: FitsView,
) -> bool {
    match result {
        Ok(fits) => expected == Ok::<(R, FitsView), Stop<FitsView>>((fits, view)),
        Err(halt) => stops(expected, halt, view),
    }
}

impl<'a, 'print> FitsMeasurer<'a, 'print> {
    /// Whether the queue and the stacks are in a valid state.
    pub open spec fn valid(&self) -> bool {
        &&& self.queue.valid()
        &&& self.stack.valid()
        &&& self.indent_stack.valid()
    }

    /// Measures content of which nothing may be expanded.
    pub fn new_flat(
        print_queue: &'print PrintQueue<'a>,
        print_stack: &'print PrintCallStack,
        print_indent_stack: &'print PrintIndentStack,
        options: PrinterOptions,
        printer_state: &mut PrinterState<'a>,
    ) -> (measurer: Self)
        requires
            print_queue.valid(),
            print_stack.valid(),
            print_indent_stack.valid(),
        ensures
            measurer.valid(),
            measurer.options == options,
            measurer@ == measuring(
                old(printer_state)@,
                print_stack@,
                print_indent_stack@,
                print_queue.elements(),
                true,
            ),
            final(printer_state)@ == (StateView { group_modes: Map::empty(), ..old(printer_state)@
            }),
    {
        let mut measurer = Self::new(
            print_queue,
            print_stack,
            print_indent_stack,
            options,
            printer_state,
        );
        measurer.must_be_flat = true;
        measurer
    }

    /// Measures content. Takes the modes of the groups from the state of the printer, to be put
    /// back at the end.
    pub fn new(
        print_queue: &'print PrintQueue<'a>,
        print_stack: &'print PrintCallStack,
        print_indent_stack: &'print PrintIndentStack,
        options: PrinterOptions,
        printer_state: &mut PrinterState<'a>,
    ) -> (measurer: Self)
        requires
            print_queue.valid(),
            print_stack.valid(),
            print_indent_stack.valid(),
        ensures
            measurer.valid(),
            measurer.options == options,
            measurer@ == measuring(
                old(printer_state)@,
                print_stack@,
                print_indent_stack@,
                print_queue.elements(),
                false,
            ),
            final(printer_state)@ == (StateView { group_modes: Map::empty(), ..old(printer_state)@
            }),
    {
        let mut group_modes = GroupModes::new();
        std::mem::swap(&mut group_modes, &mut printer_state.group_modes);
        FitsMeasurer {
            state: FitsState {
                pending_indent: printer_state.pending_indent,
                pending_space: printer_state.pending_space,
                line_width: printer_state.line_width,
                has_line_suffix: printer_state.line_suffixes.has_pending(),
            },
            queue: print_queue.stacked(),
            stack: print_stack.stacked(),
            indent_stack: print_indent_stack.stacked(),
            options,
            group_modes,
            must_be_flat: false,
        }
    }

    /// Ends measuring and returns the modes of the groups.
    pub fn finish(self) -> (group_modes: GroupModes)
        ensures
            group_modes@ == self@.group_modes,
    {
        self.group_modes
    }

    /// Tests if it's possible to print the content of the queue up to the first hard line break
    /// or the end on a single line without exceeding the line width.
    pub fn fits(&mut self, end: &mut FitsEnd) -> (result: Result<bool, Halt>)
        requires
            old(self).valid(),
        ensures
            final(self).options == old(self).options,
            final(self).valid(),
            match result {
                Ok(fits) => fits_content(old(self).options, old(self)@, *old(end)) == Ok::<
                    _,
                    Stop<(FitsView, FitsEnd)>,
                >((fits, final(self)@, *final(end))),
                Err(halt) => stops(
                    fits_content(old(self).options, old(self)@, *old(end)),
                    halt,
                    (final(self)@, *final(end)),
                ),
            },
    {
        loop
            invariant
                self.valid(),
                self.options == old(self).options,
                fits_content(self.options, self@, *end) == fits_content(
                    old(self).options,
                    old(self)@,
                    *old(end),
                ),
            decreases total_size(self.queue.elements()),
        {
            let ghost turn = self@;
            match self.queue.pop() {
                None => {
                    return Ok(true);
                },
                Some(element) => {
                    proof {
                        lemma_fits_element_progress(self.options, turn);
                        assert(self@ =~= (FitsView { queue: turn.queue.drop_first(), ..turn }));
                    }
                    match self.fits_element(element)? {
                        Fits::Yes => {
                            return Ok(true);
                        },
                        Fits::No => {
                            return Ok(false);
                        },
                        Fits::Maybe => {
                            if end.is_end(element)? {
                                return Ok(true);
                            }
                        },
                    }
                },
            }
        }
    }

    /// Tests if the content of a fill item fits in flat mode.
    ///
    /// Returns `Err` if the next element is not the start of an entry or if the document has any
    /// mismatching start/end tags.
    pub fn fill_item_fits(&mut self) -> (result: Result<bool, Halt>)
        requires
            old(self).valid(),
        ensures
            final(self).options == old(self).options,
            final(self).valid(),
            fits_agrees(
                fits_entry(old(self).options, old(self)@, PrintMode::Flat),
                result,
                final(self)@,
            ),
    {
        self.fill_entry_fits(PrintMode::Flat)
    }

    /// Tests if the content of a fill separator fits with `mode`.
    ///
    /// Returns `Err` if the next element is not the start of an entry or if the document has any
    /// mismatching start/end tags.
    pub fn fill_separator_fits(&mut self, mode: PrintMode) -> (result: Result<bool, Halt>)
        requires
            old(self).valid(),
        ensures
            final(self).options == old(self).options,
            final(self).valid(),
            fits_agrees(fits_entry(old(self).options, old(self)@, mode), result, final(self)@),
    {
        self.fill_entry_fits(mode)
    }

    /// Tests if the elements between the start and the end of an entry fit with `mode`.
    ///
    /// Returns `Err` if the next element is not the start of an entry or if the matching end of the
    /// entry is missing.
    fn fill_entry_fits(&mut self, mode: PrintMode) -> (result: Result<bool, Halt>)
        requires
            old(self).valid(),
        ensures
            final(self).options == old(self).options,
            final(self).valid(),
            fits_agrees(fits_entry(old(self).options, old(self)@, mode), result, final(self)@),
    {
        if !self.queue.starts_entry() {
            return invalid_start(TagKind::Entry, self.queue.top());
        }
        let args = self.stack.top().with_print_mode(mode);
        self.stack.push(TagKind::Fill, args);
        let mut end = FitsEnd::Entry { depth: 0 };
        let fits = self.fits(&mut end)?;

        if end == FitsEnd::Done {
            self.pop_stack(TagKind::Fill)?;
            return Ok(fits);
        }
        match self.end_follows(end) {
            None => Err(Halt::Unsupported),
            Some(false) => invalid_end(TagKind::Entry, self.stack.top_kind()),
            Some(true) => Ok(fits),
        }
    }

    /// Whether the end of measuring comes in the queue, without taking anything from it.
    fn end_follows(&self, end: FitsEnd) -> (follows: Option<bool>)
        requires
            self.valid(),
        ensures
            follows == end_follows(end, self@.queue),
    {
        match end {
            FitsEnd::Entry { depth } => self.queue.copied().ends_entry(depth),
            _ => Some(true),
        }
    }

    /// Pops the frame of a part of the given kind.
    fn pop_stack(&mut self, kind: TagKind) -> (result: Result<(), Halt>)
        requires
            old(self).valid(),
        ensures
            final(self).options == old(self).options,
            final(self).valid(),
            match result {
                Ok(()) => pop_frame(old(self)@.stack, kind) == Ok::<Seq<StackFrame>, PrintError>(
                    final(self)@.stack,
                ),
                Err(halt) => pop_frame(old(self)@.stack, kind) matches Err(error) && halt
                    == Halt::Error(error) && final(self)@.stack == frames_left(old(self)@.stack),
            },
            final(self)@ == (FitsView { stack: final(self)@.stack, ..old(self)@ }),
    {
        match self.stack.pop(kind) {
            Ok(_) => Ok(()),
            Err(error) => Err(Halt::Error(error)),
        }
    }

    /// Tests if the passed element fits on the current line or not.
    fn fits_element(&mut self, element: &'a FormatElement) -> (result: Result<Fits, Halt>)
        requires
            old(self).valid(),
        ensures
            final(self).options == old(self).options,
            final(self).valid(),
            fits_agrees(
                fits_element(old(self).options, old(self)@, *element),
                result,
                final(self)@,
            ),
    {
        match element {
            FormatElement::Space => {
                if self.state.line_width > 0 {
                    self.state.pending_space = true;
                }
                Ok(Fits::Maybe)
            },
            FormatElement::HardSpace => {
                if self.state.line_width == usize::MAX {
                    return Err(Halt::Unsupported);
                }
                self.state.line_width = self.state.line_width + 1;
                if self.state.line_width > self.options.print_width.columns as usize {
                    Ok(Fits::No)
                } else {
                    Ok(Fits::Maybe)
                }
            },
            FormatElement::Line(line_mode) => Ok(self.fits_line(*line_mode)),
            FormatElement::StaticText { text } => self.fits_text(text),
            FormatElement::DynamicText { text, .. } => self.fits_text(text.as_str()),
            FormatElement::LocatedTokenText { slice, .. } => self.fits_text(slice.as_str()),
            FormatElement::LineSuffixBoundary => {
                if self.state.has_line_suffix {
                    Ok(Fits::No)
                } else {
                    Ok(Fits::Maybe)
                }
            },
            FormatElement::ExpandParent => {
                if self.must_be_flat {
                    Ok(Fits::No)
                } else {
                    Ok(Fits::Maybe)
                }
            },
            FormatElement::BestFitting(best_fitting) => {
                let slice: &'a [FormatElement] = match self.stack.top().mode() {
                    PrintMode::Flat => best_fitting.most_flat(),
                    PrintMode::Expanded => best_fitting.most_expanded(),
                };
                match slice.first() {
                    Some(FormatElement::Tag(Tag::StartEntry)) => {
                        self.queue.extend_back(slice);
                        Ok(Fits::Maybe)
                    },
                    actual => invalid_start(TagKind::Entry, actual),
                }
            },
            FormatElement::Interned(content) => {
                self.queue.extend_back(content.as_slice());
                Ok(Fits::Maybe)
            },
            FormatElement::Tag(tag) => if tag.is_start() {
                self.fits_start(*tag)
            } else {
                self.fits_end(*tag)
            },
        }
    }

    /// Tests if a line break fits.
    fn fits_line(&mut self, line_mode: LineMode) -> (fits: Fits)
        requires
            old(self).valid(),
        ensures
            final(self).options == old(self).options,
            final(self).valid(),
            (fits, final(self)@) == fits_line(old(self)@, line_mode),
    {
        if self.stack.top().mode().is_flat() {
            match line_mode {
                LineMode::SoftOrSpace => {
                    self.state.pending_space = true;
                    Fits::Maybe
                },
                LineMode::Soft => Fits::Maybe,
                // Even in flat mode, content that _directly_ contains a hard or empty line is
                // considered to fit when a hard break is reached, since that break is always going
                // to exist, regardless of the print mode. This is particularly important for fill
                // entries, where _ungrouped_ content that contains hard breaks shouldn't force the
                // surrounding elements to also expand.
                LineMode::Hard | LineMode::Empty => Fits::Yes,
            }
        } else {
            // Reachable if the rest of the queue contains an element with mode expanded because
            // expanded is what the mode is initialized to by default. This means, the printer is
            // outside of the current element at this point and any line break should be printed as
            // regular line break -> Fits
            Fits::Yes
        }
    }

    /// Indents by one level.
    fn indent(&mut self) -> (result: Result<(), Halt>)
        requires
            old(self).valid(),
        ensures
            final(self).options == old(self).options,
            final(self).valid(),
            match result {
                Ok(()) => measure_indent(old(self).options, old(self)@) == Ok::<
                    FitsView,
                    Stop<FitsView>,
                >(final(self)@),
                Err(halt) => halt == Halt::Unsupported && measure_indent(
                    old(self).options,
                    old(self)@,
                ) is Err,
            },
    {
        if !self.indent_stack.indention().can_increment(self.options.indent_style) {
            return Err(Halt::Unsupported);
        }
        self.indent_stack.indent(self.options.indent_style);
        Ok(())
    }

    /// The mode of a group, or of the enclosing group if it is not known.
    fn group_mode(&self, group_id: Option<GroupId>) -> (mode: PrintMode)
        requires
            self.valid(),
        ensures
            mode == measured_mode(self@, group_id),
    {
        let enclosing = self.stack.top().mode();
        match group_id {
            None => enclosing,
            Some(id) => match self.group_modes.get_print_mode(id) {
                Some(mode) => mode,
                None => enclosing,
            },
        }
    }

    /// Tests if a start tag fits.
    fn fits_start(&mut self, tag: Tag) -> (result: Result<Fits, Halt>)
        requires
            old(self).valid(),
            tag.starts(),
        ensures
            final(self).options == old(self).options,
            final(self).valid(),
            fits_agrees(fits_start(old(self).options, old(self)@, tag), result, final(self)@),
    {
        let args = self.stack.top();
        match tag {
            Tag::StartIndent => {
                self.indent()?;
                self.stack.push(TagKind::Indent, args);
            },
            Tag::StartDedent(mode) => {
                match mode {
                    DedentMode::Level => self.indent_stack.start_dedent(),
                    DedentMode::Root => self.indent_stack.reset_indent(),
                };
                self.stack.push(TagKind::Dedent, args);
            },
            Tag::StartAlign(align) => {
                if !self.indent_stack.indention().can_align() {
                    return Err(Halt::Unsupported);
                }
                self.indent_stack.align(align);
                self.stack.push(TagKind::Align, args);
            },
            Tag::StartGroup(group) => {
                if self.must_be_flat && !group.mode.is_flat() {
                    return Ok(Fits::No);
                }
                let group_mode = if !group.mode.is_flat() {
                    PrintMode::Expanded
                } else {
                    args.mode()
                };

                self.stack.push(TagKind::Group, args.with_print_mode(group_mode));

                if let Some(id) = group.id {
                    self.group_modes.insert_print_mode(id, group_mode);
                }
            },
            Tag::StartConditionalContent(condition) => {
                let group_mode = self.group_mode(condition.group_id);

                if group_mode != condition.mode {
                    if !self.queue.skip_content(TagKind::ConditionalContent) {
                        return Err(Halt::Unsupported);
                    }
                } else {
                    self.stack.push(TagKind::ConditionalContent, args);
                }
            },
            Tag::StartIndentIfGroupBreaks(id) => {
                let group_mode = self.group_mode(Some(id));

                match group_mode {
                    PrintMode::Flat => {},
                    PrintMode::Expanded => {
                        self.indent()?;
                    },
                }
                self.stack.push(TagKind::IndentIfGroupBreaks, args);
            },
            Tag::StartLineSuffix => {
                if !self.queue.skip_content(TagKind::LineSuffix) {
                    return Err(Halt::Unsupported);
                }
                self.state.has_line_suffix = true;
            },
            _ => {
                self.stack.push(tag.kind(), args);
            },
        }
        Ok(Fits::Maybe)
    }

    /// Tests if an end tag fits.
    fn fits_end(&mut self, tag: Tag) -> (result: Result<Fits, Halt>)
        requires
            old(self).valid(),
            !tag.starts(),
        ensures
            final(self).options == old(self).options,
            final(self).valid(),
            fits_agrees(fits_end(old(self)@, tag), result, final(self)@),
    {
        match tag {
            Tag::EndLineSuffix => {
                return invalid_end(TagKind::LineSuffix, self.stack.top_kind());
            },
            Tag::EndIndentIfGroupBreaks(group_id) => {
                let group_mode = self.group_mode(Some(group_id));
                if group_mode == PrintMode::Expanded {
                    self.indent_stack.pop();
                }
                self.pop_stack(TagKind::IndentIfGroupBreaks)?;
            },
            Tag::EndIndent | Tag::EndAlign => {
                self.pop_stack(tag.kind())?;
                self.indent_stack.pop();
            },
            Tag::EndDedent(mode) => {
                if mode == DedentMode::Level {
                    self.indent_stack.end_dedent();
                }
                self.pop_stack(TagKind::Dedent)?;
            },
            _ => {
                self.pop_stack(tag.kind())?;
            },
        }
        Ok(Fits::Maybe)
    }

    /// Tests if a text fits.
    fn fits_text(&mut self, text: &str) -> (result: Result<Fits, Halt>)
        requires
            old(self).valid(),
        ensures
            final(self).options == old(self).options,
            final(self).valid(),
            fits_agrees(fits_text(old(self).options, old(self)@, text@), result, final(self)@),
    {
        let ghost options = self.options;
        let ghost before = self@;

        let indent = self.state.pending_indent;
        self.state.pending_indent = Indention::new();

        assert(0 <= indent.levels() * options.indent_width.columns <= 65535 * 255)
            by (nonlinear_arith)
            requires
                indent.levels() <= 65535,
                options.indent_width.columns <= 255,
        ;
        let indent_width: u32 = indent.level() as u32 * self.options.indent_width.value() as u32
            + indent.align() as u32;
        let pending: u32 = if self.state.pending_space {
            indent_width + 1
        } else {
            indent_width
        };
        match self.state.line_width.checked_add(pending as usize) {
            Some(width) => {
                self.state.line_width = width;
            },
            None => {
                return Err(Halt::Unsupported);
            },
        }

        let ghost start = self.state.line_width as int;
        assert(start == pending_width(options, before));
        assert(text@.take(text@.len() as int) =~= text@);
        let mut breaks: bool = false;
        let mut width: usize = self.state.line_width;
        for c in iter: text.chars()
            invariant_except_break
                !breaks,
                measured(options, start, text@.take(iter.index())) == Ok::<(int, bool), Halt>(
                    (width as int, false),
                ),
            invariant
                self.options == options,
                iter.seq() == text@,
                text@.take(text@.len() as int) == text@,
                start == pending_width(options, before),
                start <= usize::MAX,
                options == old(self).options,
                before == old(self)@,
                self.valid(),
                self@ == (FitsView {
                    pending_indent: Indention::Level(0),
                    line_width: start,
                    ..before
                }),
            ensures
                measured(options, start, text@) == Ok::<(int, bool), Halt>((width as int, breaks)),
        {
            proof {
                assert(text@.take(iter.index() + 1).drop_last() =~= text@.take(iter.index()));
            }
            if c == '\n' {
                breaks = true;
                proof {
                    lemma_measured_stops(options, start, text@, iter.index() + 1);
                }
                break ;
            }
            let char_width: usize = char_columns(&self.options, c);
            match width.checked_add(char_width) {
                Some(sum) => {
                    width = sum;
                },
                None => {
                    proof {
                        lemma_measured_stops(options, start, text@, iter.index() + 1);
                    }
                    return Err(Halt::Unsupported);
                },
            }
        }
        self.state.line_width = width;

        if width > self.options.print_width.columns as usize || (breaks && self.must_be_flat) {
            return Ok(Fits::No);
        }
        if breaks {
            return Ok(Fits::Yes);
        }
        self.state.pending_space = false;

        Ok(Fits::Maybe)
    }
}

/// If measuring stops at one of the characters, it does not go on behind it.
proof fn lemma_measured_stops(options: PrinterOptions, width: int, text: Seq<char>, count: int)
    requires
        0 <= count <= text.len(),
        measured(options, width, text.take(count)) matches Ok((_, breaks)) ==> breaks,
    ensures
        measured(options, width, text) == measured(options, width, text.take(count)),
    decreases text.len(),
{
    if count == text.len() {
        assert(text.take(count) =~= text);
    } else {
        assert(text.drop_last().take(count) =~= text.take(count));
        lemma_measured_stops(options, width, text.drop_last(), count);
    }
}

} // verus!
