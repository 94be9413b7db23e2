//! Prints format elements into a string.

pub mod indention;
pub mod group_modes;
pub mod stack;
pub mod call_stack;
pub mod queue;
pub mod line_suffixes;
pub mod width;
pub mod state;
pub mod text;
pub mod invalid;
pub mod fits;
pub mod machine;
pub mod outcome;
pub mod laws;

use crate::diagnostics::{PrintError, PrintResult};
use crate::format_element::{
    lemma_element_counts, total_size, BestFittingElement, Document, FormatElement, LineMode,
};
use crate::options::{IndentStyle, LineEnding, PrinterOptions};
use crate::printed::{Printed, PrintedView};
use crate::printer::call_stack::{
    frames_left, pop_frame, top_args, PrintCallStack, PrintElementArgs, PrintIndentStack,
    StackFrame,
};
use crate::printer::fits::{invalid_end, invalid_start, FitsEnd, FitsMeasurer};
use crate::printer::indention::Indention;
use crate::printer::line_suffixes::{views, LineSuffixEntry};
use crate::printer::machine::{
    after_break, entries_queued, fits_on_line, flushed, print_end, print_line, print_start,
    start_group, Machine, Outcome,
};
use crate::printer::outcome::{
    best_variant, chosen_variant, fill_layout, flat_pairs, item_mode, lemma_best_variant,
    lemma_element_progress, lemma_entry_progress, lemma_fill_line_progress, lemma_fits_entry_size,
    lemma_flat_pairs_progress, lemma_next_progress, lemma_popped_remaining, mode_before_separator,
    pairs_layout, print_element, print_entry, print_entry_rest, print_fill, print_fill_line,
    print_flat_pairs, print_last_pair, print_next, print_queue, printed_document, separator_mode,
    starting, variant_fits, FillPairLayout,
};
use crate::printer::queue::{next_is, PrintQueue};
use crate::printer::state::{initial_state, stops, Halt, PrinterState, StateView, Stop};
use crate::printer::text::agrees;
use crate::tag::{DedentMode, Group, GroupId, PrintMode, Tag, TagKind, VerbatimKind};
use crate::text_size::{TextRange, TextSize};
use vstd::prelude::*;

verus! {

/// Prints the format elements into a string.
#[derive(Debug)]
pub struct Printer<'a> {
    pub options: PrinterOptions,
    pub state: PrinterState<'a>,
}

/// All that printing reads and changes.
pub open spec fn machine_of<'a>(
    printer: Printer<'a>,
    stack: PrintCallStack,
    indent_stack: PrintIndentStack,
    queue: PrintQueue<'a>,
) -> Machine {
    Machine {
        state: printer.state@,
        stack: stack@,
        indents: indent_stack@,
        queue: queue.elements(),
    }
}

/// Whether the stacks and the queue are in a valid state.
pub open spec fn ready<'a>(
    stack: PrintCallStack,
    indent_stack: PrintIndentStack,
    queue: PrintQueue<'a>,
) -> bool {
    &&& stack.valid()
    &&& indent_stack.valid()
    &&& queue.valid()
}

/// Whether `result` and the new machine are what `expected` says. That holds of a malformed document
/// too: the machine is as it was where the error was found.
pub open spec fn leads_to(expected: Outcome, result: Result<(), Halt>, machine: Machine) -> bool {
    match result {
        Ok(()) => expected == Ok::<Machine, Stop<Machine>>(machine),
        Err(halt) => stops(expected, halt, machine),
    }
}

/// A hard line break.
fn hard_break<'a>() -> (element: &'a FormatElement)
    ensures
        *element == FormatElement::Line(LineMode::Hard),
{
    &FormatElement::Line(LineMode::Hard)
}

/// The end of a line suffix.
fn line_suffix_end<'a>() -> (element: &'a FormatElement)
    ensures
        *element == FormatElement::Tag(Tag::EndLineSuffix),
{
    &FormatElement::Tag(Tag::EndLineSuffix)
}

/// Pops the frame of a part of the given kind.
fn pop_stack(stack: &mut PrintCallStack, kind: TagKind) -> (result: Result<(), Halt>)
    requires
        old(stack).valid(),
    ensures
        final(stack).valid(),
        match result {
            Ok(()) => pop_frame(old(stack)@, kind) == Ok::<
                Seq<StackFrame>,
                PrintError,
            >(final(stack)@),
            Err(halt) => pop_frame(old(stack)@, kind) matches Err(error) && halt == Halt::Error(
                error,
            ) && final(stack)@ == frames_left(old(stack)@),
        },
{
    match stack.pop(kind) {
        Ok(_) => Ok(()),
        Err(error) => Err(Halt::Error(error)),
    }
}

/// Measures how many pairs of items and separators fit on the line, and how to print the pair behind
/// them.
fn measure_pairs<'a, 'print>(measurer: &mut FitsMeasurer<'a, 'print>) -> (result: Result<
    (usize, FillPairLayout),
    Halt,
>)
    requires
        old(measurer).valid(),
    ensures
        match result {
            Ok((pairs, layout)) => pairs_layout(old(measurer).options, old(measurer)@) == Ok::<
                _,
                Stop<Map<GroupId, PrintMode>>,
            >((pairs as nat, layout, final(measurer)@.group_modes)),
            Err(halt) => stops(
                pairs_layout(old(measurer).options, old(measurer)@),
                halt,
                final(measurer)@.group_modes,
            ),
        },
{
    // The number of item/separator pairs that fit on the same line.
    let mut count: usize = 0;

    if !measurer.fill_item_fits()? {
        // Neither item nor separator fit, print both in expanded mode.
        return Ok((count, FillPairLayout::Expanded));
    }
    // Measure the remaining pairs until the first item or separator that does not fit (or the
    // end of the fill element).
    // Optimisation to avoid re-measuring the next-item twice:
    // * Once when measuring if the *item*, *separator*, *next-item* fit
    // * A second time when measuring if *next-item*, *separator*, *next-next-item* fit.

    loop
        invariant
            measurer.valid(),
            measurer.options == old(measurer).options,
            flat_pairs(measurer.options, measurer@, count as nat) == pairs_layout(
                old(measurer).options,
                old(measurer)@,
            ),
        decreases total_size(measurer@.queue),
    {
        // Item that fits without a following separator.
        if !measurer.queue.starts_entry() {
            return Ok((count, FillPairLayout::Flat));
        }
        proof {
            lemma_fits_entry_size(measurer.options, measurer@, PrintMode::Flat);
        }
        let separator_fits = measurer.fill_separator_fits(PrintMode::Flat)?;

        // Item fits but the flat separator does not.
        if !separator_fits {
            return Ok((count, FillPairLayout::ItemMaybeFlat));
        }
        // Last item/separator pair that both fit

        if !measurer.queue.starts_entry() {
            return Ok((count, FillPairLayout::Flat));
        }
        proof {
            lemma_fits_entry_size(measurer.options, measurer@, PrintMode::Flat);
        }
        let item_fits = measurer.fill_item_fits()?;

        if !item_fits {
            // Item and separator both fit, but the next element doesn't.
            // Print the separator in expanded mode and then re-measure if the item now
            // fits in the next line of the fill.
            return Ok((count, FillPairLayout::ItemFlatSeparatorExpanded));
        }
        if count == usize::MAX {
            return Err(Halt::Unsupported);
        }
        count = count + 1;
    }
}

/// The mode to print an item that fits in, where its separator does not fit in flat mode.
fn measure_item_again<'a, 'print>(measurer: &mut FitsMeasurer<'a, 'print>) -> (result: Result<
    PrintMode,
    Halt,
>)
    requires
        old(measurer).valid(),
    ensures
        match result {
            Ok(mode) => mode_before_separator(old(measurer).options, old(measurer)@) == Ok::<
                _,
                Stop<Map<GroupId, PrintMode>>,
            >((mode, final(measurer)@.group_modes)),
            Err(halt) => stops(
                mode_before_separator(old(measurer).options, old(measurer)@),
                halt,
                final(measurer)@.group_modes,
            ),
        },
{
    // Re-measuring is required to get the measurer in the correct state for measuring the
    // separator.
    if !measurer.fill_item_fits()? {
        return Err(Halt::Unsupported);
    }
    let separator_fits = measurer.fill_separator_fits(PrintMode::Expanded)?;

    if separator_fits {
        Ok(PrintMode::Flat)
    } else {
        Ok(PrintMode::Expanded)
    }
}

impl<'a> Default for Printer<'a> {
    /// A printer with the default options.
    fn default() -> (printer: Self)
        ensures
            printer.options.print_width.columns == 80,
            printer.options.line_ending == LineEnding::Lf,
            printer.options.indent_style == IndentStyle::Tab,
            printer.options.indent_width.columns == 2,
            printer.state@ == initial_state(),
    {
        Printer::new(PrinterOptions::default())
    }
}

impl<'a> Printer<'a> {
    /// A printer with the given options that has not printed anything.
    pub fn new(options: PrinterOptions) -> (printer: Self)
        ensures
            printer.options == options,
            printer.state@ == initial_state(),
    {
        Printer { options, state: PrinterState::default() }
    }

    /// Prints the passed in element as well as all its content.
    pub fn print(self, document: &'a Document) -> (result: PrintResult<Printed>)
        requires
            printed_document(self.options, self.state@, document@, 0) != Err::<PrintedView, Halt>(
                Halt::Unsupported,
            ),
        ensures
            match result {
                Ok(printed) => printed_document(self.options, self.state@, document@, 0) == Ok::<
                    PrintedView,
                    Halt,
                >(printed@),
                Err(error) => printed_document(self.options, self.state@, document@, 0) == Err::<
                    PrintedView,
                    Halt,
                >(Halt::Error(error)),
            },
    {
        self.print_with_indent(document, 0)
    }

    /// Prints the passed in element as well as all its content,
    /// starting at the specified indentation level.
    pub fn print_with_indent(self, document: &'a Document, indent: u16) -> (result: PrintResult<
        Printed,
    >)
        requires
            printed_document(self.options, self.state@, document@, indent) != Err::<
                PrintedView,
                Halt,
            >(Halt::Unsupported),
        ensures
            match result {
                Ok(printed) => printed_document(self.options, self.state@, document@, indent)
                    == Ok::<PrintedView, Halt>(printed@),
                Err(error) => printed_document(self.options, self.state@, document@, indent)
                    == Err::<PrintedView, Halt>(Halt::Error(error)),
            },
    {
        match self.print_document(document, indent) {
            Ok(printed) => Ok(printed),
            Err(Halt::Error(error)) => Err(error),
            Err(Halt::Unsupported) => vstd::pervasive::unreached(),
        }
    }

    /// Prints a document like [`Printer::print`] if the printer supports it. Returns `None` if it
    /// does not.
    pub fn try_print(options: PrinterOptions, document: &'a Document) -> (result: Option<
        PrintResult<Printed>,
    >)
        ensures
            match result {
                Some(Ok(printed)) => printed_document(options, initial_state(), document@, 0)
                    == Ok::<PrintedView, Halt>(printed@),
                Some(Err(error)) => printed_document(options, initial_state(), document@, 0)
                    == Err::<PrintedView, Halt>(Halt::Error(error)),
                None => printed_document(options, initial_state(), document@, 0) == Err::<
                    PrintedView,
                    Halt,
                >(Halt::Unsupported),
            },
    {
        match Printer::new(options).print_document(document, 0) {
            Err(Halt::Unsupported) => None,
            _ => Some(Printer::new(options).print(document)),
        }
    }

    /// Prints a document like [`Printer::print_with_indent`] if the printer supports it. Returns
    /// `None` if it does not.
    pub fn try_print_with_indent(
        options: PrinterOptions,
        document: &'a Document,
        indent: u16,
    ) -> (result: Option<PrintResult<Printed>>)
        ensures
            match result {
                Some(Ok(printed)) => printed_document(options, initial_state(), document@, indent)
                    == Ok::<PrintedView, Halt>(printed@),
                Some(Err(error)) => printed_document(options, initial_state(), document@, indent)
                    == Err::<PrintedView, Halt>(Halt::Error(error)),
                None => printed_document(options, initial_state(), document@, indent) == Err::<
                    PrintedView,
                    Halt,
                >(Halt::Unsupported),
            },
    {
        match Printer::new(options).print_document(document, indent) {
            Err(Halt::Unsupported) => None,
            _ => Some(Printer::new(options).print_with_indent(document, indent)),
        }
    }

    /// Prints a document.
    fn print_document(self, document: &'a Document, indent: u16) -> (result: Result<Printed, Halt>)
        ensures
            match result {
                Ok(printed) => printed_document(self.options, self.state@, document@, indent)
                    == Ok::<PrintedView, Halt>(printed@),
                Err(halt) => printed_document(self.options, self.state@, document@, indent)
                    == Err::<PrintedView, Halt>(halt),
            },
    {
        let mut printer = self;
        let mut stack = PrintCallStack::new(PrintElementArgs::new());
        let mut queue: PrintQueue<'a> = PrintQueue::new(document.as_slice());
        let mut indent_stack = PrintIndentStack::new(Indention::Level(indent));
        let ghost start = starting(self.state@, document@, indent);
        assert(machine_of(printer, stack, indent_stack, queue) =~= start);

        loop
            invariant
                ready(stack, indent_stack, queue),
                printer.options == self.options,
                start == starting(self.state@, document@, indent),
                print_queue(self.options, machine_of(printer, stack, indent_stack, queue))
                    == print_queue(self.options, start),
            ensures
                print_queue(self.options, start) == Ok::<Machine, Stop<Machine>>(
                    machine_of(printer, stack, indent_stack, queue),
                ),
            decreases
                machine_of(printer, stack, indent_stack, queue).remaining().suffixes,
                machine_of(printer, stack, indent_stack, queue).remaining().pending,
                machine_of(printer, stack, indent_stack, queue).remaining().size,
        {
            let ghost turn = machine_of(printer, stack, indent_stack, queue);
            match queue.pop() {
                None => {
                    break ;
                },
                Some(element) => {
                    proof {
                        assert(machine_of(printer, stack, indent_stack, queue) == turn.popped());
                        lemma_next_progress(self.options, turn);
                    }
                    printer.print_next(&mut stack, &mut indent_stack, &mut queue, element)?;
                },
            }
        }

        Ok(
            Printed::new(
                printer.state.buffer,
                None,
                printer.state.source_markers,
                printer.state.verbatim_markers,
            ),
        )
    }

    /// Prints a single element, and queues the pending line suffixes if it was the last one.
    fn print_next(
        &mut self,
        stack: &mut PrintCallStack,
        indent_stack: &mut PrintIndentStack,
        queue: &mut PrintQueue<'a>,
        element: &'a FormatElement,
    ) -> (result: Result<(), Halt>)
        requires
            ready(*old(stack), *old(indent_stack), *old(queue)),
        ensures
            ready(*final(stack), *final(indent_stack), *final(queue)),
            final(self).options == old(self).options,
            leads_to(
                print_next(
                    old(self).options,
                    machine_of(*old(self), *old(stack), *old(indent_stack), *old(queue)),
                    *element,
                ),
                result,
                machine_of(*final(self), *final(stack), *final(indent_stack), *final(queue)),
            ),
    {
        proof {
            reveal(print_next);
        }
        self.print_element(stack, indent_stack, queue, element)?;

        if queue.is_empty() {
            self.flush_line_suffixes(queue, stack, indent_stack, None);
        }
        Ok(())
    }

    /// Prints a single element and push the following elements to queue.
    fn print_element(
        &mut self,
        stack: &mut PrintCallStack,
        indent_stack: &mut PrintIndentStack,
        queue: &mut PrintQueue<'a>,
        element: &'a FormatElement,
    ) -> (result: Result<(), Halt>)
        requires
            ready(*old(stack), *old(indent_stack), *old(queue)),
        ensures
            ready(*final(stack), *final(indent_stack), *final(queue)),
            final(self).options == old(self).options,
            leads_to(
                print_element(
                    old(self).options,
                    machine_of(*old(self), *old(stack), *old(indent_stack), *old(queue)),
                    *element,
                ),
                result,
                machine_of(*final(self), *final(stack), *final(indent_stack), *final(queue)),
            ),
        decreases
            machine_of(*old(self), *old(stack), *old(indent_stack), *old(queue)).remaining_with(
                *element,
            ).suffixes,
            machine_of(*old(self), *old(stack), *old(indent_stack), *old(queue)).remaining_with(
                *element,
            ).pending,
            machine_of(*old(self), *old(stack), *old(indent_stack), *old(queue)).remaining_with(
                *element,
            ).size,
            1nat,
    {
        match element {
            FormatElement::BestFitting(best_fitting) => self.print_best_fitting(
                best_fitting,
                queue,
                stack,
                indent_stack,
            ),
            FormatElement::Tag(Tag::StartFill) => {
                proof {
                    lemma_element_counts(*element);
                }
                self.print_fill_entries(queue, stack, indent_stack)
            },
            FormatElement::Space | FormatElement::HardSpace => {
                if self.state.line_width > 0 {
                    self.state.pending_space = true;
                }
                Ok(())
            },
            FormatElement::StaticText { text } => self.print_text(text, None),
            FormatElement::DynamicText { text, source_position } => self.print_text(
                text.as_str(),
                Some(*source_position),
            ),
            FormatElement::LocatedTokenText { slice, source_position } => self.print_text(
                slice.as_str(),
                Some(*source_position),
            ),
            FormatElement::Line(line_mode) => self.print_line(
                stack,
                indent_stack,
                queue,
                element,
                *line_mode,
            ),
            FormatElement::ExpandParent => {
                // Expanding the groups around is up to whoever makes the document
                Ok(())
            },
            FormatElement::LineSuffixBoundary => {
                self.flush_line_suffixes(queue, stack, indent_stack, Some(hard_break()));
                Ok(())
            },
            FormatElement::Interned(content) => {
                queue.extend_back(content.as_slice());
                Ok(())
            },
            FormatElement::Tag(tag) => if tag.is_start() {
                self.print_start(stack, indent_stack, queue, *tag)
            } else {
                self.print_end(stack, indent_stack, *tag)
            },
        }
    }

    /// Prints a line break.
    fn print_line(
        &mut self,
        stack: &mut PrintCallStack,
        indent_stack: &mut PrintIndentStack,
        queue: &mut PrintQueue<'a>,
        element: &'a FormatElement,
        line_mode: LineMode,
    ) -> (result: Result<(), Halt>)
        requires
            ready(*old(stack), *old(indent_stack), *old(queue)),
            *element == FormatElement::Line(line_mode),
        ensures
            ready(*final(stack), *final(indent_stack), *final(queue)),
            final(self).options == old(self).options,
            leads_to(
                print_line(
                    old(self).options,
                    machine_of(*old(self), *old(stack), *old(indent_stack), *old(queue)),
                    line_mode,
                ),
                result,
                machine_of(*final(self), *final(stack), *final(indent_stack), *final(queue)),
            ),
    {
        if stack.top().mode().is_flat() {
            match line_mode {
                LineMode::Soft | LineMode::SoftOrSpace => {
                    if line_mode == LineMode::SoftOrSpace && self.state.line_width > 0 {
                        self.state.pending_space = true;
                    }
                    return Ok(());
                },
                LineMode::Hard | LineMode::Empty => {
                    self.state.measured_group_fits = false;
                },
            }
        }
        if self.state.line_suffixes.has_pending() {
            self.flush_line_suffixes(queue, stack, indent_stack, Some(element));
            return Ok(());
        }
        self.print_break(line_mode)?;

        self.state.pending_space = false;
        self.state.pending_indent = indent_stack.stack.indention();
        Ok(())
    }

    /// Prints the characters of a line break.
    fn print_break(&mut self, line_mode: LineMode) -> (result: Result<(), Halt>)
        ensures
            final(self).options == old(self).options,
            agrees(
                after_break(old(self).options, old(self).state@, line_mode),
                result,
                final(self).state@,
            ),
    {
        proof {
            reveal_strlit("\n");
            assert("\n"@ =~= seq!['\n']);
        }
        // Only print a newline if the current line isn't already empty
        if self.state.line_width > 0 {
            self.print_str("\n")?;
        }
        // Print a second line break if this is an empty line

        if line_mode == LineMode::Empty && !self.state.has_empty_line {
            self.print_str("\n")?;
            self.state.has_empty_line = true;
        }
        Ok(())
    }

    /// Prints a start tag other than that of a fill.
    fn print_start(
        &mut self,
        stack: &mut PrintCallStack,
        indent_stack: &mut PrintIndentStack,
        queue: &mut PrintQueue<'a>,
        tag: Tag,
    ) -> (result: Result<(), Halt>)
        requires
            ready(*old(stack), *old(indent_stack), *old(queue)),
            tag.starts(),
        ensures
            ready(*final(stack), *final(indent_stack), *final(queue)),
            final(self).options == old(self).options,
            leads_to(
                print_start(
                    old(self).options,
                    machine_of(*old(self), *old(stack), *old(indent_stack), *old(queue)),
                    tag,
                ),
                result,
                machine_of(*final(self), *final(stack), *final(indent_stack), *final(queue)),
            ),
    {
        let args = stack.top();
        match tag {
            Tag::StartGroup(group) => {
                return self.start_group(stack, indent_stack, queue, group);
            },
            Tag::StartIndent => {
                self.indent(indent_stack)?;
                stack.push(TagKind::Indent, args);
            },
            Tag::StartDedent(mode) => {
                match mode {
                    DedentMode::Level => indent_stack.stack.start_dedent(),
                    DedentMode::Root => indent_stack.stack.reset_indent(),
                };
                stack.push(TagKind::Dedent, args);
            },
            Tag::StartAlign(align) => {
                if !indent_stack.stack.indention().can_align() {
                    return Err(Halt::Unsupported);
                }
                indent_stack.stack.align(align);
                stack.push(TagKind::Align, args);
            },
            Tag::StartConditionalContent(condition) => {
                let group_mode = match condition.group_id {
                    None => args.mode(),
                    Some(id) => self.group_mode(id, tag)?,
                };

                if group_mode != condition.mode {
                    if !queue.skip_content(TagKind::ConditionalContent) {
                        return Err(Halt::Unsupported);
                    }
                } else {
                    stack.push(TagKind::ConditionalContent, args);
                }
            },
            Tag::StartIndentIfGroupBreaks(group_id) => {
                let group_mode = self.group_mode(group_id, tag)?;

                if group_mode == PrintMode::Expanded {
                    self.indent(indent_stack)?;
                }
                stack.push(TagKind::IndentIfGroupBreaks, args);
            },
            Tag::StartLineSuffix => {
                let indention = indent_stack.stack.indention();
                indent_stack.push_suffix(indention);
                match queue.take_content(TagKind::LineSuffix) {
                    None => {
                        return Err(Halt::Unsupported);
                    },
                    Some(content) => {
                        self.state.line_suffixes.extend(args, content);
                    },
                }
            },
            Tag::StartVerbatim(kind) => {
                if let VerbatimKind::Verbatim { length } = kind {
                    let start: u32 = #[verifier::truncate]
                    (self.state.buffer.as_str().as_bytes().len() as u32);
                    match TextRange::at(TextSize::new(start), length) {
                        None => {
                            return Err(Halt::Unsupported);
                        },
                        Some(range) => {
                            self.state.verbatim_markers.push(range);
                        },
                    }
                }
                stack.push(TagKind::Verbatim, args);
            },
            _ => {
                stack.push(tag.kind(), args);
            },
        }
        Ok(())
    }

    /// The mode in which the group with the given id was printed.
    fn group_mode(&self, group_id: GroupId, tag: Tag) -> (result: Result<PrintMode, Halt>)
        ensures
            result == (if self.state@.group_modes.contains_key(group_id) {
                Ok::<PrintMode, Halt>(self.state@.group_modes[group_id])
            } else {
                Err(Halt::Unsupported)
            }),
    {
        if self.state.group_modes.get_print_mode(group_id).is_none() {
            return Err(Halt::Unsupported);
        }
        Ok(self.state.group_modes.unwrap_print_mode(group_id, &FormatElement::Tag(tag)))
    }

    /// Indents by one level.
    fn indent(&self, indent_stack: &mut PrintIndentStack) -> (result: Result<(), Halt>)
        requires
            old(indent_stack).valid(),
        ensures
            final(indent_stack).valid(),
            final(indent_stack)@.suffixes == old(indent_stack)@.suffixes,
            match result {
                Ok(()) => {
                    &&& old(indent_stack)@.stack.current().next_level(self.options.indent_style)
                        <= u16::MAX
                    &&& final(indent_stack)@.stack == old(indent_stack)@.stack.pushed(
                        old(indent_stack)@.stack.current().incremented(self.options.indent_style),
                    )
                },
                Err(halt) => {
                    &&& old(indent_stack)@.stack.current().next_level(self.options.indent_style)
                        > u16::MAX
                    &&& halt == Halt::Unsupported
                },
            },
    {
        if !indent_stack.stack.indention().can_increment(self.options.indent_style) {
            return Err(Halt::Unsupported);
        }
        indent_stack.stack.indent(self.options.indent_style);
        Ok(())
    }

    /// Starts a group: prints it flat if it fits on the line.
    fn start_group(
        &mut self,
        stack: &mut PrintCallStack,
        indent_stack: &PrintIndentStack,
        queue: &PrintQueue<'a>,
        group: Group,
    ) -> (result: Result<(), Halt>)
        requires
            ready(*old(stack), *indent_stack, *queue),
        ensures
            final(stack).valid(),
            final(self).options == old(self).options,
            leads_to(
                start_group(
                    old(self).options,
                    machine_of(*old(self), *old(stack), *indent_stack, *queue),
                    group,
                ),
                result,
                machine_of(*final(self), *final(stack), *indent_stack, *queue),
            ),
    {
        let args = stack.top();
        let ghost before = machine_of(*self, *stack, *indent_stack, *queue);
        let group_mode = if !group.mode.is_flat() {
            PrintMode::Expanded
        } else {
            match args.mode() {
                PrintMode::Flat if self.state.measured_group_fits => {
                    // A parent group has already verified that this group fits on a single line
                    // Thus, just continue in flat mode
                    PrintMode::Flat
                },
                // The printer is either in expanded mode or it's necessary to re-measure if the
                // group fits because the printer printed a line break
                _ => {
                    self.state.measured_group_fits = true;

                    if let Some(id) = group.id {
                        self.state.group_modes.insert_print_mode(id, PrintMode::Flat);
                    }
                    // Measure to see if the group fits up on a single line. If that's the case,
                    // print the group in "flat" mode, otherwise continue in expanded mode

                    stack.push(TagKind::Group, args.with_print_mode(PrintMode::Flat));
                    let fits = self.fits(queue, stack, indent_stack)?;
                    pop_stack(stack, TagKind::Group)?;
                    assert(stack@ =~= before.stack);

                    if fits {
                        PrintMode::Flat
                    } else {
                        PrintMode::Expanded
                    }
                },
            }
        };

        stack.push(TagKind::Group, args.with_print_mode(group_mode));

        if let Some(id) = group.id {
            self.state.group_modes.insert_print_mode(id, group_mode);
        }
        Ok(())
    }

    /// Prints an end tag.
    fn print_end(
        &mut self,
        stack: &mut PrintCallStack,
        indent_stack: &mut PrintIndentStack,
        tag: Tag,
    ) -> (result: Result<(), Halt>)
        requires
            old(stack).valid(),
            old(indent_stack).valid(),
            !tag.starts(),
        ensures
            final(stack).valid(),
            final(indent_stack).valid(),
            *final(self) == *old(self),
            forall|queue: PrintQueue<'a>|
                #![trigger machine_of(*old(self), *old(stack), *old(indent_stack), queue)]
                leads_to(
                    print_end(
                        machine_of(*old(self), *old(stack), *old(indent_stack), queue),
                        tag,
                    ),
                    result,
                    machine_of(*final(self), *final(stack), *final(indent_stack), queue),
                ),
    {
        match tag {
            Tag::EndIndentIfGroupBreaks(group_id) => {
                if self.group_mode(group_id, tag)? == PrintMode::Expanded {
                    indent_stack.stack.pop();
                }
                pop_stack(stack, TagKind::IndentIfGroupBreaks)?;
            },
            Tag::EndIndent | Tag::EndAlign | Tag::EndLineSuffix => {
                pop_stack(stack, tag.kind())?;
                indent_stack.stack.pop();
            },
            Tag::EndDedent(mode) => {
                match mode {
                    DedentMode::Level => indent_stack.stack.end_dedent(),
                    DedentMode::Root => indent_stack.stack.pop(),
                };
                pop_stack(stack, TagKind::Dedent)?;
            },
            _ => {
                pop_stack(stack, tag.kind())?;
            },
        }
        Ok(())
    }

    /// Tests if what is queued fits on the line up to the next line break.
    fn fits(
        &mut self,
        queue: &PrintQueue<'a>,
        stack: &PrintCallStack,
        indent_stack: &PrintIndentStack,
    ) -> (result: Result<bool, Halt>)
        requires
            ready(*stack, *indent_stack, *queue),
        ensures
            final(self).options == old(self).options,
            match result {
                Ok(fits) => fits_on_line(
                    old(self).options,
                    machine_of(*old(self), *stack, *indent_stack, *queue),
                ) == Ok::<_, Stop<Map<GroupId, PrintMode>>>(
                    (fits, final(self).state@.group_modes),
                ),
                Err(halt) => stops(
                    fits_on_line(
                        old(self).options,
                        machine_of(*old(self), *stack, *indent_stack, *queue),
                    ),
                    halt,
                    final(self).state@.group_modes,
                ),
            },
            final(self).state@ == (StateView {
                group_modes: final(self).state@.group_modes,
                ..old(self).state@
            }),
    {
        let mut measure = FitsMeasurer::new(
            queue,
            stack,
            indent_stack,
            self.options,
            &mut self.state,
        );
        let mut end = FitsEnd::Document;
        let result = measure.fits(&mut end);
        self.state.group_modes = measure.finish();
        result
    }

    /// Queues the pending line suffixes.
    fn flush_line_suffixes(
        &mut self,
        queue: &mut PrintQueue<'a>,
        stack: &mut PrintCallStack,
        indent_stack: &mut PrintIndentStack,
        line_break: Option<&'a FormatElement>,
    )
        requires
            ready(*old(stack), *old(indent_stack), *old(queue)),
        ensures
            ready(*final(stack), *final(indent_stack), *final(queue)),
            final(self).options == old(self).options,
            machine_of(*final(self), *final(stack), *final(indent_stack), *final(queue)) == flushed(
                machine_of(*old(self), *old(stack), *old(indent_stack), *old(queue)),
                match line_break {
                    Some(element) => Some(*element),
                    None => None,
                },
            ),
    {
        let ghost before = machine_of(*self, *stack, *indent_stack, *queue);
        let mut suffixes = self.state.line_suffixes.take_pending();
        let ghost entries = views(suffixes@);

        if suffixes.len() > 0 {
            // Print this line break element again once all the line suffixes have been flushed
            if let Some(line_break) = line_break {
                queue.push(line_break);
            }
            indent_stack.flush_suffixes();
            let ghost target = entries_queued(entries, stack@, queue.elements());
            let ghost state = self.state@;
            while suffixes.len() > 0
                invariant
                    ready(*stack, *indent_stack, *queue),
                    self.options == old(self).options,
                    self.state@ == state,
                    indent_stack@ == before.indents.flushed(),
                    entries_queued(views(suffixes@), stack@, queue.elements()) == target,
                decreases suffixes@.len(),
            {
                let ghost turn = suffixes@;
                if let Some(entry) = suffixes.pop() {
                    assert(views(turn).drop_last() =~= views(suffixes@));
                    assert(views(turn).last() == entry@);
                    match entry {
                        LineSuffixEntry::Suffix(suffix) => {
                            queue.push(suffix);
                        },
                        LineSuffixEntry::Args(args) => {
                            stack.push(TagKind::LineSuffix, args);
                            queue.push(line_suffix_end());
                        },
                    }
                }
            }
        }
        proof {
            assert(machine_of(*self, *stack, *indent_stack, *queue) =~= flushed(
                before,
                match line_break {
                    Some(element) => Some(*element),
                    None => None,
                },
            ));
        }
    }

    /// Prints the first variant that fits on the line, or the most expanded one.
    fn print_best_fitting(
        &mut self,
        best_fitting: &'a BestFittingElement,
        queue: &mut PrintQueue<'a>,
        stack: &mut PrintCallStack,
        indent_stack: &mut PrintIndentStack,
    ) -> (result: Result<(), Halt>)
        requires
            ready(*old(stack), *old(indent_stack), *old(queue)),
        ensures
            ready(*final(stack), *final(indent_stack), *final(queue)),
            final(self).options == old(self).options,
            leads_to(
                print_element(
                    old(self).options,
                    machine_of(*old(self), *old(stack), *old(indent_stack), *old(queue)),
                    FormatElement::BestFitting(*best_fitting),
                ),
                result,
                machine_of(*final(self), *final(stack), *final(indent_stack), *final(queue)),
            ),
        decreases
            machine_of(*old(self), *old(stack), *old(indent_stack), *old(queue)).remaining_with(
                FormatElement::BestFitting(*best_fitting),
            ).suffixes,
            machine_of(*old(self), *old(stack), *old(indent_stack), *old(queue)).remaining_with(
                FormatElement::BestFitting(*best_fitting),
            ).pending,
            machine_of(*old(self), *old(stack), *old(indent_stack), *old(queue)).remaining_with(
                FormatElement::BestFitting(*best_fitting),
            ).size,
            0nat,
    {
        let ghost before = machine_of(*self, *stack, *indent_stack, *queue);
        let args = stack.top();
        proof {
            lemma_best_variant(self.options, before, *best_fitting);
        }

        if args.mode().is_flat() && self.state.measured_group_fits {
            queue.extend_back(best_fitting.most_flat());
            self.print_entry(queue, stack, indent_stack, args)
        } else {
            self.state.measured_group_fits = true;

            let variants: &'a [Vec<FormatElement>] = best_fitting.variants();
            let normal_variants: usize = variants.len() - 1;
            let ghost start = before.with_measured(true);

            let mut index: usize = 0;
            while index < normal_variants
                invariant
                    ready(*stack, *indent_stack, *queue),
                    self.options == old(self).options,
                    before == machine_of(
                        *old(self),
                        *old(stack),
                        *old(indent_stack),
                        *old(queue),
                    ),
                    !(before.mode() == PrintMode::Flat && before.state.measured_group_fits),
                    start == before.with_measured(true),
                    args == top_args(before.stack),
                    variants@ == best_fitting.layouts(),
                    normal_variants + 1 == variants@.len(),
                    machine_of(*self, *stack, *indent_stack, *queue) == start.with_group_modes(
                        self.state@.group_modes,
                    ),
                    index <= normal_variants,
                    chosen_variant(
                        self.options,
                        machine_of(*self, *stack, *indent_stack, *queue),
                        *best_fitting,
                        index as int,
                    ) == chosen_variant(self.options, start, *best_fitting, 0),
                    best_variant(self.options, before, *best_fitting) matches Ok(
                        (after, variant, _),
                    ) ==> after.queueing(variant).remaining().less(
                        before.remaining_with(FormatElement::BestFitting(*best_fitting)),
                    ),
                decreases normal_variants - index,
            {
                // Test if this variant fits and if so, use it. Otherwise try the next
                // variant.
                let variant: &'a [FormatElement] = variants[index].as_slice();

                if self.variant_fits(variant, queue, stack, indent_stack)? {
                    queue.extend_back(variant);
                    return self.print_entry(
                        queue,
                        stack,
                        indent_stack,
                        args.with_print_mode(PrintMode::Flat),
                    );
                }
                index = index + 1;
            }
            // No variant fits, take the last (most expanded) as fallback

            queue.extend_back(best_fitting.most_expanded());
            self.print_entry(
                queue,
                stack,
                indent_stack,
                args.with_print_mode(PrintMode::Expanded),
            )
        }
    }

    /// Tests if a variant fits on the line in flat mode.
    fn variant_fits(
        &mut self,
        variant: &'a [FormatElement],
        queue: &mut PrintQueue<'a>,
        stack: &mut PrintCallStack,
        indent_stack: &PrintIndentStack,
    ) -> (result: Result<bool, Halt>)
        requires
            ready(*old(stack), *indent_stack, *old(queue)),
        ensures
            ready(*final(stack), *indent_stack, *final(queue)),
            final(self).options == old(self).options,
            match result {
                Ok(fits) => {
                    &&& variant_fits(
                        old(self).options,
                        machine_of(*old(self), *old(stack), *indent_stack, *old(queue)),
                        variant@,
                    ) == Ok::<_, Stop<Machine>>((fits, final(self).state@.group_modes))
                    &&& machine_of(*final(self), *final(stack), *indent_stack, *final(queue))
                        == machine_of(
                        *old(self),
                        *old(stack),
                        *indent_stack,
                        *old(queue),
                    ).with_group_modes(final(self).state@.group_modes)
                },
                Err(halt) => stops(
                    variant_fits(
                        old(self).options,
                        machine_of(*old(self), *old(stack), *indent_stack, *old(queue)),
                        variant@,
                    ),
                    halt,
                    machine_of(*final(self), *final(stack), *indent_stack, *final(queue)),
                ),
            },
    {
        let ghost before = machine_of(*self, *stack, *indent_stack, *queue);
        match variant.first() {
            Some(FormatElement::Tag(Tag::StartEntry)) => {},
            actual => {
                return invalid_start(TagKind::Entry, actual);
            },
        }

        let entry_args = stack.top().with_print_mode(PrintMode::Flat);

        // Skip the first element because we want to override the args for the entry and the
        // args must be popped from the stack as soon as it sees the matching end entry.
        let content: &'a [FormatElement] = vstd::slice::slice_subrange(variant, 1, variant.len());
        assert(content@ =~= variant@.drop_first());

        queue.extend_back(content);
        stack.push(TagKind::Entry, entry_args);
        let fits = self.fits(queue, stack, indent_stack)?;
        pop_stack(stack, TagKind::Entry)?;
        assert(stack@ =~= before.stack);

        // Remove the content slice because printing needs the variant WITH the start entry
        if content.len() == 0 {
            return Err(Halt::Unsupported);
        }
        queue.pop_slice();
        proof {
            let all = content@ + before.queue;
            assert(queue.elements() =~= all.skip(content@.len() as int));
            assert(before.queue =~= all.skip(content@.len() as int));
        }
        Ok(fits)
    }

    /// Tries to fit as much content as possible on a single line.
    ///
    /// `Fill` is a sequence of *item*, *separator*, *item*, *separator*, *item*, ... entries.
    /// The goal is to fit as many items (with their separators) on a single line as possible and
    /// first expand the *separator* if the content exceeds the print width and only fallback to
    /// expanding the *item*s if the *item* or the *item* and the expanded *separator* don't fit on
    /// the line.
    ///
    /// The implementation handles the following 5 cases:
    ///
    /// * The *item*, *separator*, and the *next item* fit on the same line.
    ///   Print the *item* and *separator* in flat mode.
    /// * The *item* and *separator* fit on the line but there's not enough space for the *next
    ///   item*. Print the *item* in flat mode and the *separator* in expanded mode.
    /// * The *item* fits on the line but the *separator* does not in flat mode.
    ///   Print the *item* in flat mode and the *separator* in expanded mode.
    /// * The *item* fits on the line but the *separator* does not in flat **NOR** expanded mode.
    ///   Print the *item* and *separator* in expanded mode.
    /// * The *item* does not fit on the line.
    ///   Print the *item* and *separator* in expanded mode.
    fn print_fill_entries(
        &mut self,
        queue: &mut PrintQueue<'a>,
        stack: &mut PrintCallStack,
        indent_stack: &mut PrintIndentStack,
    ) -> (result: Result<(), Halt>)
        requires
            ready(*old(stack), *old(indent_stack), *old(queue)),
        ensures
            ready(*final(stack), *final(indent_stack), *final(queue)),
            final(self).options == old(self).options,
            leads_to(
                print_element(
                    old(self).options,
                    machine_of(*old(self), *old(stack), *old(indent_stack), *old(queue)),
                    FormatElement::Tag(Tag::StartFill),
                ),
                result,
                machine_of(*final(self), *final(stack), *final(indent_stack), *final(queue)),
            ),
        decreases
            machine_of(
                *old(self),
                *old(stack),
                *old(indent_stack),
                *old(queue),
            ).remaining().suffixes,
            machine_of(*old(self), *old(stack), *old(indent_stack), *old(queue)).remaining().pending,
            machine_of(*old(self), *old(stack), *old(indent_stack), *old(queue)).remaining().size,
            7nat,
    {
        let ghost before = machine_of(*self, *stack, *indent_stack, *queue);
        let args = stack.top();

        // It's already known that the content fit, print all items in flat mode.
        if self.state.measured_group_fits && args.mode().is_flat() {
            stack.push(TagKind::Fill, args.with_print_mode(PrintMode::Flat));
            return Ok(());
        }
        stack.push(TagKind::Fill, args);
        let ghost start = machine_of(*self, *stack, *indent_stack, *queue);
        assert(start.remaining() == before.remaining());

        while queue.starts_entry()
            invariant
                ready(*stack, *indent_stack, *queue),
                self.options == old(self).options,
                print_fill(
                    self.options,
                    machine_of(*self, *stack, *indent_stack, *queue),
                    args,
                ) == print_fill(self.options, start, args),
                machine_of(*self, *stack, *indent_stack, *queue).remaining().at_most(
                    start.remaining(),
                ),
                before == machine_of(*old(self), *old(stack), *old(indent_stack), *old(queue)),
                start.remaining() == before.remaining(),
                print_element(
                    self.options,
                    before,
                    FormatElement::Tag(Tag::StartFill),
                ) == print_fill(self.options, start, args),
            decreases
                machine_of(*self, *stack, *indent_stack, *queue).remaining().suffixes,
                machine_of(*self, *stack, *indent_stack, *queue).remaining().pending,
                machine_of(*self, *stack, *indent_stack, *queue).remaining().size,
        {
            proof {
                lemma_fill_line_progress(
                    self.options,
                    machine_of(*self, *stack, *indent_stack, *queue),
                    args,
                );
            }
            self.print_fill_line(queue, stack, indent_stack, args)?;
        }

        match queue.top() {
            Some(FormatElement::Tag(Tag::EndFill)) => Ok(()),
            _ => invalid_end(TagKind::Fill, stack.top_kind()),
        }
    }

    /// Prints the pairs of a fill that fit on the line, and one more.
    fn print_fill_line(
        &mut self,
        queue: &mut PrintQueue<'a>,
        stack: &mut PrintCallStack,
        indent_stack: &mut PrintIndentStack,
        args: PrintElementArgs,
    ) -> (result: Result<(), Halt>)
        requires
            ready(*old(stack), *old(indent_stack), *old(queue)),
        ensures
            ready(*final(stack), *final(indent_stack), *final(queue)),
            final(self).options == old(self).options,
            leads_to(
                print_fill_line(
                    old(self).options,
                    machine_of(*old(self), *old(stack), *old(indent_stack), *old(queue)),
                    args,
                ),
                result,
                machine_of(*final(self), *final(stack), *final(indent_stack), *final(queue)),
            ),
        decreases
            machine_of(
                *old(self),
                *old(stack),
                *old(indent_stack),
                *old(queue),
            ).remaining().suffixes,
            machine_of(*old(self), *old(stack), *old(indent_stack), *old(queue)).remaining().pending,
            machine_of(*old(self), *old(stack), *old(indent_stack), *old(queue)).remaining().size,
            6nat,
    {
        let ghost before = machine_of(*self, *stack, *indent_stack, *queue);
        let (pairs, last_pair_layout): (usize, FillPairLayout) = self.measure_fill(
            queue,
            stack,
            indent_stack,
        )?;
        self.state.measured_group_fits = true;
        let ghost start = machine_of(*self, *stack, *indent_stack, *queue);
        assert(start.remaining() == before.remaining());

        proof {
            lemma_flat_pairs_progress(
                self.options,
                start,
                args.in_mode(PrintMode::Flat),
                pairs as nat,
            );
        }
        // Print all pairs that fit in flat mode.
        self.print_flat_pairs(
            queue,
            stack,
            indent_stack,
            args.with_print_mode(PrintMode::Flat),
            pairs,
        )?;

        self.print_last_pair(queue, stack, indent_stack, args, last_pair_layout)
    }

    /// Measures how many pairs of a fill fit on the line, and how to print the pair behind them.
    fn measure_fill(
        &mut self,
        queue: &PrintQueue<'a>,
        stack: &PrintCallStack,
        indent_stack: &PrintIndentStack,
    ) -> (result: Result<(usize, FillPairLayout), Halt>)
        requires
            ready(*stack, *indent_stack, *queue),
        ensures
            final(self).options == old(self).options,
            match result {
                Ok((pairs, layout)) => fill_layout(
                    old(self).options,
                    machine_of(*old(self), *stack, *indent_stack, *queue),
                ) == Ok::<_, Stop<Map<GroupId, PrintMode>>>(
                    (pairs as nat, layout, final(self).state@.group_modes),
                ),
                Err(halt) => stops(
                    fill_layout(
                        old(self).options,
                        machine_of(*old(self), *stack, *indent_stack, *queue),
                    ),
                    halt,
                    final(self).state@.group_modes,
                ),
            },
            final(self).state@ == (StateView {
                group_modes: final(self).state@.group_modes,
                ..old(self).state@
            }),
    {
        let mut measurer = FitsMeasurer::new_flat(
            queue,
            stack,
            indent_stack,
            self.options,
            &mut self.state,
        );
        let result = measure_pairs(&mut measurer);
        self.state.group_modes = measurer.finish();
        result
    }

    /// Prints pairs of items and separators.
    fn print_flat_pairs(
        &mut self,
        queue: &mut PrintQueue<'a>,
        stack: &mut PrintCallStack,
        indent_stack: &mut PrintIndentStack,
        args: PrintElementArgs,
        pairs: usize,
    ) -> (result: Result<(), Halt>)
        requires
            ready(*old(stack), *old(indent_stack), *old(queue)),
        ensures
            ready(*final(stack), *final(indent_stack), *final(queue)),
            final(self).options == old(self).options,
            leads_to(
                print_flat_pairs(
                    old(self).options,
                    machine_of(*old(self), *old(stack), *old(indent_stack), *old(queue)),
                    args,
                    pairs as nat,
                ),
                result,
                machine_of(*final(self), *final(stack), *final(indent_stack), *final(queue)),
            ),
        decreases
            machine_of(
                *old(self),
                *old(stack),
                *old(indent_stack),
                *old(queue),
            ).remaining().suffixes,
            machine_of(*old(self), *old(stack), *old(indent_stack), *old(queue)).remaining().pending,
            machine_of(*old(self), *old(stack), *old(indent_stack), *old(queue)).remaining().size,
            4nat,
    {
        let ghost start = machine_of(*self, *stack, *indent_stack, *queue);
        let mut left: usize = pairs;
        while left > 0
            invariant
                ready(*stack, *indent_stack, *queue),
                self.options == old(self).options,
                start == machine_of(*old(self), *old(stack), *old(indent_stack), *old(queue)),
                print_flat_pairs(
                    self.options,
                    machine_of(*self, *stack, *indent_stack, *queue),
                    args,
                    left as nat,
                ) == print_flat_pairs(self.options, start, args, pairs as nat),
                machine_of(*self, *stack, *indent_stack, *queue).remaining().at_most(
                    start.remaining(),
                ),
            decreases left,
        {
            proof {
                lemma_entry_progress(
                    self.options,
                    machine_of(*self, *stack, *indent_stack, *queue),
                    args,
                );
            }
            self.print_fill_item(queue, stack, indent_stack, args)?;
            proof {
                lemma_entry_progress(
                    self.options,
                    machine_of(*self, *stack, *indent_stack, *queue),
                    args,
                );
            }
            self.print_fill_separator(queue, stack, indent_stack, args)?;
            left = left - 1;
        }
        Ok(())
    }

    /// Prints the last pair of a line of a fill, or the last item of the fill.
    fn print_last_pair(
        &mut self,
        queue: &mut PrintQueue<'a>,
        stack: &mut PrintCallStack,
        indent_stack: &mut PrintIndentStack,
        args: PrintElementArgs,
        layout: FillPairLayout,
    ) -> (result: Result<(), Halt>)
        requires
            ready(*old(stack), *old(indent_stack), *old(queue)),
        ensures
            ready(*final(stack), *final(indent_stack), *final(queue)),
            final(self).options == old(self).options,
            leads_to(
                print_last_pair(
                    old(self).options,
                    machine_of(*old(self), *old(stack), *old(indent_stack), *old(queue)),
                    args,
                    layout,
                ),
                result,
                machine_of(*final(self), *final(stack), *final(indent_stack), *final(queue)),
            ),
        decreases
            machine_of(
                *old(self),
                *old(stack),
                *old(indent_stack),
                *old(queue),
            ).remaining().suffixes,
            machine_of(*old(self), *old(stack), *old(indent_stack), *old(queue)).remaining().pending,
            machine_of(*old(self), *old(stack), *old(indent_stack), *old(queue)).remaining().size,
            5nat,
    {
        let ghost before = machine_of(*self, *stack, *indent_stack, *queue);
        let item_mode = self.measure_item(queue, stack, indent_stack, layout)?;
        let ghost measured = machine_of(*self, *stack, *indent_stack, *queue);
        assert(measured.remaining() == before.remaining());
        proof {
            lemma_entry_progress(self.options, measured, args.in_mode(item_mode));
        }

        self.print_fill_item(queue, stack, indent_stack, args.with_print_mode(item_mode))?;

        if queue.starts_entry() {
            let separator_mode = match layout {
                FillPairLayout::Flat => PrintMode::Flat,
                FillPairLayout::ItemFlatSeparatorExpanded
                | FillPairLayout::Expanded
                | FillPairLayout::ItemMaybeFlat => PrintMode::Expanded,
            };

            let ghost item = machine_of(*self, *stack, *indent_stack, *queue);
            // Push a new stack frame with print mode `Flat` for the case where the separator gets
            // printed in expanded mode but does contain a group to ensure that the group will
            // measure "fits" with the "flat" versions of the next item/separator.
            stack.push(TagKind::Fill, args.with_print_mode(PrintMode::Flat));
            assert(machine_of(*self, *stack, *indent_stack, *queue).remaining()
                == item.remaining());
            self.print_fill_separator(
                queue,
                stack,
                indent_stack,
                args.with_print_mode(separator_mode),
            )?;
            pop_stack(stack, TagKind::Fill)?;
        }
        Ok(())
    }

    /// The mode to print the item of a pair in.
    fn measure_item(
        &mut self,
        queue: &PrintQueue<'a>,
        stack: &PrintCallStack,
        indent_stack: &PrintIndentStack,
        layout: FillPairLayout,
    ) -> (result: Result<PrintMode, Halt>)
        requires
            ready(*stack, *indent_stack, *queue),
        ensures
            final(self).options == old(self).options,
            match result {
                Ok(mode) => item_mode(
                    old(self).options,
                    machine_of(*old(self), *stack, *indent_stack, *queue),
                    layout,
                ) == Ok::<_, Stop<Map<GroupId, PrintMode>>>(
                    (mode, final(self).state@.group_modes),
                ),
                Err(halt) => stops(
                    item_mode(
                        old(self).options,
                        machine_of(*old(self), *stack, *indent_stack, *queue),
                        layout,
                    ),
                    halt,
                    final(self).state@.group_modes,
                ),
            },
            final(self).state@ == (StateView {
                group_modes: final(self).state@.group_modes,
                ..old(self).state@
            }),
    {
        match layout {
            FillPairLayout::Flat | FillPairLayout::ItemFlatSeparatorExpanded => Ok(PrintMode::Flat),
            FillPairLayout::Expanded => Ok(PrintMode::Expanded),
            FillPairLayout::ItemMaybeFlat => {
                let mut measurer = FitsMeasurer::new_flat(
                    queue,
                    stack,
                    indent_stack,
                    self.options,
                    &mut self.state,
                );
                let result = measure_item_again(&mut measurer);
                self.state.group_modes = measurer.finish();
                result
            },
        }
    }

    /// Semantic alias for [Self::print_entry] for fill items.
    fn print_fill_item(
        &mut self,
        queue: &mut PrintQueue<'a>,
        stack: &mut PrintCallStack,
        indent_stack: &mut PrintIndentStack,
        args: PrintElementArgs,
    ) -> (result: Result<(), Halt>)
        requires
            ready(*old(stack), *old(indent_stack), *old(queue)),
        ensures
            ready(*final(stack), *final(indent_stack), *final(queue)),
            final(self).options == old(self).options,
            leads_to(
                print_entry(
                    old(self).options,
                    machine_of(*old(self), *old(stack), *old(indent_stack), *old(queue)),
                    args,
                ),
                result,
                machine_of(*final(self), *final(stack), *final(indent_stack), *final(queue)),
            ),
        decreases
            machine_of(
                *old(self),
                *old(stack),
                *old(indent_stack),
                *old(queue),
            ).remaining().suffixes,
            machine_of(*old(self), *old(stack), *old(indent_stack), *old(queue)).remaining().pending,
            machine_of(*old(self), *old(stack), *old(indent_stack), *old(queue)).remaining().size,
            3nat,
    {
        self.print_entry(queue, stack, indent_stack, args)
    }

    /// Semantic alias for [Self::print_entry] for fill separators.
    fn print_fill_separator(
        &mut self,
        queue: &mut PrintQueue<'a>,
        stack: &mut PrintCallStack,
        indent_stack: &mut PrintIndentStack,
        args: PrintElementArgs,
    ) -> (result: Result<(), Halt>)
        requires
            ready(*old(stack), *old(indent_stack), *old(queue)),
        ensures
            ready(*final(stack), *final(indent_stack), *final(queue)),
            final(self).options == old(self).options,
            leads_to(
                print_entry(
                    old(self).options,
                    machine_of(*old(self), *old(stack), *old(indent_stack), *old(queue)),
                    args,
                ),
                result,
                machine_of(*final(self), *final(stack), *final(indent_stack), *final(queue)),
            ),
        decreases
            machine_of(
                *old(self),
                *old(stack),
                *old(indent_stack),
                *old(queue),
            ).remaining().suffixes,
            machine_of(*old(self), *old(stack), *old(indent_stack), *old(queue)).remaining().pending,
            machine_of(*old(self), *old(stack), *old(indent_stack), *old(queue)).remaining().size,
            3nat,
    {
        self.print_entry(queue, stack, indent_stack, args)
    }

    /// Fully print an element (print the element itself and all its descendants).
    ///
    /// Unlike [Self::print_element], this function ensures the entire element has
    /// been printed when it returns and the queue is back to its original state.
    fn print_entry(
        &mut self,
        queue: &mut PrintQueue<'a>,
        stack: &mut PrintCallStack,
        indent_stack: &mut PrintIndentStack,
        args: PrintElementArgs,
    ) -> (result: Result<(), Halt>)
        requires
            ready(*old(stack), *old(indent_stack), *old(queue)),
        ensures
            ready(*final(stack), *final(indent_stack), *final(queue)),
            final(self).options == old(self).options,
            leads_to(
                print_entry(
                    old(self).options,
                    machine_of(*old(self), *old(stack), *old(indent_stack), *old(queue)),
                    args,
                ),
                result,
                machine_of(*final(self), *final(stack), *final(indent_stack), *final(queue)),
            ),
            !next_is(old(queue).elements(), Tag::StartEntry) ==> machine_of(
                *final(self),
                *final(stack),
                *final(indent_stack),
                *final(queue),
            ) == machine_of(*old(self), *old(stack), *old(indent_stack), *old(queue)),
        decreases
            machine_of(
                *old(self),
                *old(stack),
                *old(indent_stack),
                *old(queue),
            ).remaining().suffixes,
            machine_of(*old(self), *old(stack), *old(indent_stack), *old(queue)).remaining().pending,
            machine_of(*old(self), *old(stack), *old(indent_stack), *old(queue)).remaining().size,
            2nat,
    {
        let ghost start = machine_of(*self, *stack, *indent_stack, *queue);
        if !queue.starts_entry() {
            return invalid_start(TagKind::Entry, queue.top());
        }
        let mut depth: i32 = 0;

        loop
            invariant
                ready(*stack, *indent_stack, *queue),
                self.options == old(self).options,
                start == machine_of(*old(self), *old(stack), *old(indent_stack), *old(queue)),
                depth >= 0,
                next_is(start.queue, Tag::StartEntry),
                print_entry_rest(
                    self.options,
                    machine_of(*self, *stack, *indent_stack, *queue),
                    args,
                    depth as nat,
                ) == print_entry_rest(self.options, start, args, 0),
                machine_of(*self, *stack, *indent_stack, *queue).remaining().at_most(
                    start.remaining(),
                ),
            decreases
                machine_of(*self, *stack, *indent_stack, *queue).remaining().suffixes,
                machine_of(*self, *stack, *indent_stack, *queue).remaining().pending,
                machine_of(*self, *stack, *indent_stack, *queue).remaining().size,
        {
            let ghost turn = machine_of(*self, *stack, *indent_stack, *queue);
            match queue.pop() {
                None => {
                    return invalid_end(TagKind::Entry, stack.top_kind());
                },
                Some(element) => {
                    proof {
                        assert(machine_of(*self, *stack, *indent_stack, *queue) == turn.popped());
                        lemma_popped_remaining(turn);
                        lemma_element_progress(self.options, turn.popped(), *element);
                    }
                    match element {
                        FormatElement::Tag(Tag::StartEntry) => {
                            // Handle the start of the first element by pushing the args on the
                            // stack.
                            if depth == 0 {
                                depth = 1;
                                stack.push(TagKind::Entry, args);
                                continue ;
                            }
                            if depth == i32::MAX {
                                return Err(Halt::Unsupported);
                            }
                            depth = depth + 1;
                        },
                        FormatElement::Tag(Tag::EndEntry) => {
                            // Reached the end entry, pop the entry from the stack and return.
                            if depth <= 1 {
                                return pop_stack(stack, TagKind::Entry);
                            }
                            depth = depth - 1;
                        },
                        _ => {
                            // Fall through
                        },
                    }

                    self.print_element(stack, indent_stack, queue, element)?;
                },
            }
        }
    }
}

} // verus!
