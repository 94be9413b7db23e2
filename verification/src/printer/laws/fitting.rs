//! Content that was measured to fit is printed on the line, within the print width.

use crate::format_element::{total_size, FormatElement};
use crate::options::PrinterOptions;
use crate::printer::call_stack::{
    push_frame, top_args, PrintElementArgs, StackFrame, StackFrameKind,
};
use crate::printer::fits::{
    fits_element, fits_end, fits_start, fits_text, lemma_fits_element_progress, measured, measuring,
    pending_width, Fits, FitsView,
};
use crate::printer::indention::Indention;
use crate::printer::machine::{
    fits_on_line, has_entries, print_end, print_plain, print_start, start_group, with_group_mode,
    Machine, Outcome,
};
use crate::printer::outcome::{
    advanced, best_variant, depth_behind, lemma_best_variant, lemma_element_progress,
    lemma_popped_remaining, print_element, print_entry, print_entry_rest,
};
use crate::printer::queue::next_is;
use crate::printer::state::{Halt, StateView, Stop};
use crate::printer::text::{
    after_indent, after_marker, after_repeated, after_space, after_str, after_text, indent_char,
};
use crate::printer::width::columns;
use crate::tag::{Group, GroupMode, PrintMode, Tag, TagKind};
use crate::text_size::TextSize;
use vstd::prelude::*;

verus! {

/// The columns that a pending space takes.
pub open spec fn space_columns(pending_space: bool) -> int {
    if pending_space {
        1
    } else {
        0
    }
}

/// Whether measuring is about what the printer is about to print, and counts no less than the printer
/// has printed on the line.
pub open spec fn measures(view: FitsView, machine: Machine) -> bool {
    &&& view.queue == machine.queue
    &&& view.stack == machine.stack
    &&& view.group_modes == machine.state.group_modes
    &&& view.has_line_suffix == (machine.state.line_suffixes.len() > 0)
    &&& view.pending_indent == machine.state.pending_indent
    &&& machine.state.line_width <= view.line_width
    &&& machine.state.line_width + space_columns(machine.state.pending_space) <= view.line_width
        + space_columns(view.pending_space)
}

/// Whether all parts on the stack from `base` on are printed flat.
pub open spec fn is_flat_from(stack: Seq<StackFrame>, base: nat) -> bool {
    forall|i: int| base <= i < stack.len() ==> (#[trigger] stack[i]).args.mode == PrintMode::Flat
}

/// Whether the printer prints flat what is known to fit, in the parts on the stack from `base` on.
pub open spec fn prints_flat(machine: Machine, base: nat) -> bool {
    &&& machine.state.measured_group_fits
    &&& is_flat_from(machine.stack, base)
}

/// Whether the printer stayed on the line, and within the print width if it printed anything on it.
pub open spec fn stays_on_line(options: PrinterOptions, before: StateView, after: StateView) -> bool {
    &&& after.generated_line == before.generated_line
    &&& after.line_width <= before.line_width || after.line_width <= options.print_width.columns
}

/// What measuring says of the next element, and the view after it.
pub open spec fn measure_next(options: PrinterOptions, view: FitsView) -> Result<
    (Fits, FitsView),
    Stop<FitsView>,
> {
    fits_element(options, FitsView { queue: view.queue.drop_first(), ..view }, view.queue[0])
}

/// Whether the element starts a group that is expanded.
pub open spec fn starts_expanded(element: FormatElement) -> bool {
    element matches FormatElement::Tag(Tag::StartGroup(group)) && group.mode != GroupMode::Flat
}

/// The view behind the parts of the stack from `base` on, if measuring gets there without meeting
/// a line break, an expanded group or something that does not fit.
pub open spec fn measured_through(options: PrinterOptions, view: FitsView, base: nat) -> Option<
    FitsView,
>
    decreases total_size(view.queue),
{
    if view.stack.len() <= base {
        Some(view)
    } else if view.queue.len() == 0 || starts_expanded(view.queue[0]) {
        None
    } else {
        proof {
            lemma_fits_element_progress(options, view);
        }
        match measure_next(options, view) {
            Ok((Fits::Maybe, after)) => measured_through(options, after, base),
            _ => None,
        }
    }
}

/// Printing a character that is no line break a number of times.
proof fn lemma_repeated_width(
    options: PrinterOptions,
    state: StateView,
    character: char,
    count: nat,
)
    requires
        character != '\n',
    ensures
        after_repeated(options, state, character, count) matches Ok(after) ==> {
            &&& after.line_width == state.line_width + count * columns(options, character)
            &&& after == (StateView {
                buffer: after.buffer,
                generated_column: after.generated_column,
                line_width: after.line_width,
                ..state
            })
        },
    decreases count,
{
    if count == 0 {
        assert(count * columns(options, character) == 0) by (nonlinear_arith)
            requires
                count == 0,
        ;
    } else {
        lemma_repeated_width(options, state, character, (count - 1) as nat);
        let width = columns(options, character);
        assert((count - 1) * width + width == count * width) by (nonlinear_arith);
    }
}

/// Printing text that measuring goes through without a line break.
proof fn lemma_str_width(
    options: PrinterOptions,
    state: StateView,
    text: Seq<char>,
    start: int,
    end: int,
)
    requires
        measured(options, start, text) == Ok::<(int, bool), Halt>((end, false)),
    ensures
        after_str(options, state, text) matches Ok(after) ==> {
            &&& after.line_width == state.line_width + (end - start)
            &&& after == (StateView {
                buffer: after.buffer,
                generated_column: after.generated_column,
                line_width: after.line_width,
                has_empty_line: after.has_empty_line,
                ..state
            })
        },
    decreases text.len(),
{
    if text.len() > 0 {
        let before = measured(options, start, text.drop_last())->Ok_0.0;
        lemma_str_width(options, state, text.drop_last(), start, before);
    }
}

/// Printing the pending indention takes the columns that are measured for it.
proof fn lemma_indent_width(options: PrinterOptions, state: StateView)
    ensures
        after_indent(options, state) matches Ok(after) ==> {
            &&& after.line_width == state.line_width + state.pending_indent.levels()
                * options.indent_width.columns + state.pending_indent.spaces()
            &&& after == (StateView {
                buffer: after.buffer,
                generated_column: after.generated_column,
                line_width: after.line_width,
                pending_indent: Indention::Level(0),
                ..state
            })
        },
{
    let start = StateView { pending_indent: Indention::Level(0), ..state };
    let (character, per_level) = indent_char(options);
    let levels = state.pending_indent.levels() as nat;
    let count = levels * per_level;
    lemma_repeated_width(options, start, character, count);
    assert(count * columns(options, character) == levels * options.indent_width.columns)
        by (nonlinear_arith)
        requires
            count == levels * per_level,
            per_level * columns(options, character) == options.indent_width.columns,
    ;
    if let Ok(indented) = after_repeated(options, start, character, count) {
        let spaces = state.pending_indent.spaces() as nat;
        lemma_repeated_width(options, indented, ' ', spaces);
        assert(spaces * columns(options, ' ') == spaces) by (nonlinear_arith)
            requires
                columns(options, ' ') == 1,
        ;
    }
}

/// Printing text that measuring goes through without a line break.
proof fn lemma_text_width(
    options: PrinterOptions,
    view: FitsView,
    machine: Machine,
    text: Seq<char>,
    source_position: Option<TextSize>,
)
    requires
        measures(view, machine),
        fits_text(options, view, text) is Ok,
        fits_text(options, view, text)->Ok_0.0 == Fits::Maybe,
    ensures
        after_text(options, machine.state, text, source_position) matches Ok(after) ==> {
            &&& measures(
                fits_text(options, view, text)->Ok_0.1,
                Machine { state: after, ..machine },
            )
            &&& after.measured_group_fits == machine.state.measured_group_fits
            &&& after.generated_line == machine.state.generated_line
            &&& after.line_width <= options.print_width.columns
        },
{
    let state = machine.state;
    if let Ok(after) = after_text(options, state, text, source_position) {
        let start = pending_width(options, view);
        let end = measured(options, start, text)->Ok_0.0;
        lemma_indent_width(options, state);
        assert(Indention::Level(0).levels() * options.indent_width.columns == 0)
            by (nonlinear_arith)
            requires
                Indention::Level(0).levels() == 0,
        ;
        let indented = if state.pending_indent == Indention::Level(0) {
            state
        } else {
            after_indent(options, state)->Ok_0
        };
        assert(indented.line_width == state.line_width + state.pending_indent.levels()
            * options.indent_width.columns + state.pending_indent.spaces());
        lemma_space_width(options, indented);
        let spaced = after_space(options, indented)->Ok_0;
        let placed = match source_position {
            Some(position) => StateView { source_position: position, ..spaced },
            None => spaced,
        };
        let marked = after_marker(placed)->Ok_0;
        lemma_str_width(options, marked, text, start, end);
    }
}

/// Printing the pending space takes a column.
proof fn lemma_space_width(options: PrinterOptions, state: StateView)
    ensures
        after_space(options, state) matches Ok(after) ==> {
            &&& after.line_width == state.line_width + space_columns(state.pending_space)
            &&& after == (StateView {
                buffer: after.buffer,
                generated_column: after.generated_column,
                line_width: after.line_width,
                has_empty_line: after.has_empty_line,
                pending_space: false,
                ..state
            })
        },
{
    if state.pending_space {
        let content = seq![' '];
        assert(content.drop_last() =~= Seq::empty());
        assert(after_str(options, state, content.drop_last()) == Ok::<StateView, Halt>(state));
    }
}

/// Printing a start tag and measuring it go together.
proof fn lemma_start_measured(
    options: PrinterOptions,
    view: FitsView,
    machine: Machine,
    tag: Tag,
    base: nat,
)
    requires
        tag.starts(),
        measures(view, machine),
        prints_flat(machine, base),
        machine.stack.len() > base,
        !starts_expanded(FormatElement::Tag(tag)),
        fits_start(options, view, tag) matches Ok((Fits::Maybe, _)),
    ensures
        print_start(options, machine, tag) matches Ok(after) ==> {
            &&& measures(fits_start(options, view, tag)->Ok_0.1, after)
            &&& prints_flat(after, base)
            &&& stays_on_line(options, machine.state, after.state)
        },
{
    let args = top_args(machine.stack);
    assert(args.mode == PrintMode::Flat) by {
        assert(machine.stack[machine.stack.len() - 1].args.mode == PrintMode::Flat);
    }
    assert(args.in_mode(PrintMode::Flat) == args);
}

/// Printing an end tag and measuring it go together.
proof fn lemma_end_measured(
    options: PrinterOptions,
    view: FitsView,
    machine: Machine,
    tag: Tag,
    base: nat,
)
    requires
        !tag.starts(),
        measures(view, machine),
        prints_flat(machine, base),
        machine.stack.len() > base,
        fits_end(view, tag) matches Ok((Fits::Maybe, _)),
    ensures
        print_end(machine, tag) matches Ok(after) ==> {
            &&& measures(fits_end(view, tag)->Ok_0.1, after)
            &&& prints_flat(after, base)
            &&& stays_on_line(options, machine.state, after.state)
        },
{
}

/// Printing an element flat and measuring it go together.
proof fn lemma_plain_measured(
    options: PrinterOptions,
    view: FitsView,
    machine: Machine,
    element: FormatElement,
    base: nat,
)
    requires
        !has_entries(element),
        measures(view, machine),
        prints_flat(machine, base),
        machine.stack.len() > base,
        !starts_expanded(element),
        fits_element(options, view, element) matches Ok((Fits::Maybe, _)),
    ensures
        print_plain(options, machine, element) matches Ok(after) ==> {
            &&& measures(fits_element(options, view, element)->Ok_0.1, after)
            &&& prints_flat(after, base)
            &&& stays_on_line(options, machine.state, after.state)
        },
{
    assert(machine.mode() == PrintMode::Flat) by {
        assert(machine.stack[machine.stack.len() - 1].args.mode == PrintMode::Flat);
    }
    match element {
        FormatElement::StaticText { text } => {
            lemma_text_width(options, view, machine, text@, None);
        },
        FormatElement::DynamicText { text, source_position } => {
            lemma_text_width(options, view, machine, text@, Some(source_position));
        },
        FormatElement::LocatedTokenText { slice, source_position } => {
            lemma_text_width(options, view, machine, slice@, Some(source_position));
        },
        FormatElement::Tag(tag) => {
            if tag.starts() {
                lemma_start_measured(options, view, machine, tag, base);
            } else {
                lemma_end_measured(options, view, machine, tag, base);
            }
        },
        _ => {},
    }
}

/// What an element does to the parts on the stack.
pub open spec fn stack_behind(
    element: FormatElement,
    before: Seq<StackFrame>,
    after: Seq<StackFrame>,
) -> bool {
    match element {
        FormatElement::Tag(tag) => if tag.starts() {
            ||| after == before && tag != Tag::StartEntry
            ||| exists|args: PrintElementArgs| after == #[trigger]
                push_frame(before, tag.marks(), args)
        } else {
            after == before.drop_last() && before.last().kind == StackFrameKind::Tag(tag.marks())
        },
        _ => after == before,
    }
}

/// What an element that fits does to the parts on the stack.
proof fn lemma_plain_stack(
    options: PrinterOptions,
    view: FitsView,
    machine: Machine,
    element: FormatElement,
)
    requires
        !has_entries(element),
        measures(view, machine),
        machine.mode() == PrintMode::Flat,
        fits_element(options, view, element) matches Ok((Fits::Maybe, _)),
    ensures
        print_plain(options, machine, element) matches Ok(after) ==> stack_behind(
            element,
            machine.stack,
            after.stack,
        ),
{
    let args = top_args(machine.stack);
    if let Ok(after) = print_plain(options, machine, element) {
        if let FormatElement::Tag(tag) = element {
            if tag.starts() {
                assert(after.stack == machine.stack && tag != Tag::StartEntry || after.stack
                    == push_frame(machine.stack, tag.marks(), args.in_mode(PrintMode::Flat))
                    || after.stack == push_frame(
                    machine.stack,
                    tag.marks(),
                    args.in_mode(PrintMode::Expanded),
                ));
            }
        }
    }
}

/// Printing an element that was measured to fit goes on with what measuring goes on with.
///
/// The printer stays on the line and within the print width, up to the end of the parts from `base`
/// on.
proof fn lemma_element_fits(
    options: PrinterOptions,
    view: FitsView,
    machine: Machine,
    base: nat,
)
    requires
        measures(view, machine),
        prints_flat(machine, base),
        machine.queue.len() > 0,
        machine.stack.len() > base,
        measured_through(options, view, base) is Some,
    ensures
        print_element(options, machine.popped(), machine.queue[0]) matches Ok(after) ==> exists|
            next: FitsView,
        | #[trigger]
            measures(next, after) && measured_through(options, next, base) == measured_through(
                options,
                view,
                base,
            ),
        print_element(options, machine.popped(), machine.queue[0]) matches Ok(after) ==> {
            &&& prints_flat(after, base)
            &&& stays_on_line(options, machine.state, after.state)
            &&& stack_behind(machine.queue[0], machine.stack, after.stack)
        },
    decreases
        machine.remaining().suffixes,
        machine.remaining().pending,
        machine.remaining().size,
        0nat,
{
    let element = machine.queue[0];
    let popped = machine.popped();
    let rest = FitsView { queue: view.queue.drop_first(), ..view };
    lemma_popped_remaining(machine);
    assert(measures(rest, popped));
    assert(machine.mode() == PrintMode::Flat) by {
        assert(machine.stack[machine.stack.len() - 1].args.mode == PrintMode::Flat);
    }
    let next = measure_next(options, view)->Ok_0.1;
    match element {
        FormatElement::BestFitting(best_fitting) => {
            lemma_best_variant(options, popped, best_fitting);
            if let Ok((start, variant, args)) = best_variant(options, popped, best_fitting) {
                let queued = start.queueing(variant);
                assert(start == popped);
                assert(args == top_args(machine.stack));
                assert(variant == best_fitting.layouts().first()@);
                assert(measures(next, queued));
                lemma_entry_fits(options, next, queued, args, base);
            }
        },
        FormatElement::Tag(Tag::StartFill) => {
            let args = top_args(machine.stack);
            assert(args.in_mode(PrintMode::Flat) == args);
            assert(measures(next, popped.entering(TagKind::Fill, args)));
            assert(popped.entering(TagKind::Fill, args).stack == push_frame(
                machine.stack,
                Tag::StartFill.marks(),
                args,
            ));
        },
        _ => {
            lemma_plain_measured(options, rest, popped, element, base);
            lemma_plain_stack(options, rest, popped, element);
            if let Ok(after) = print_element(options, popped, element) {
                assert(measures(next, after));
            }
        },
    }
}

/// The number of entries among the parts from `base` on.
pub open spec fn open_entries(stack: Seq<StackFrame>, base: nat) -> nat
    decreases stack.len(),
{
    if stack.len() <= base {
        0
    } else {
        open_entries(stack.drop_last(), base) + (if stack.last().kind == StackFrameKind::Tag(
            TagKind::Entry,
        ) {
            1nat
        } else {
            0
        })
    }
}

/// Printing an entry that was measured to fit goes on with what measuring goes on with.
proof fn lemma_entry_fits(
    options: PrinterOptions,
    view: FitsView,
    machine: Machine,
    args: PrintElementArgs,
    base: nat,
)
    requires
        measures(view, machine),
        prints_flat(machine, base),
        machine.stack.len() > base,
        args == top_args(machine.stack),
        measured_through(options, view, base) is Some,
    ensures
        print_entry(options, machine, args) matches Ok(after) ==> exists|next: FitsView|
            #[trigger]
            measures(next, after) && measured_through(options, next, base) == measured_through(
                options,
                view,
                base,
            ),
        print_entry(options, machine, args) matches Ok(after) ==> {
            &&& prints_flat(after, base)
            &&& after.stack == machine.stack
            &&& stays_on_line(options, machine.state, after.state)
        },
    decreases
        machine.remaining().suffixes,
        machine.remaining().pending,
        machine.remaining().size,
        2nat,
{
    if next_is(machine.queue, Tag::StartEntry) {
        lemma_entry_rest_fits(options, view, machine, args, 0, base, machine.stack);
    }
}

/// Printing an entry up to its end goes on with what measuring goes on with. The entry is in the last
/// part of `outer`.
proof fn lemma_entry_rest_fits(
    options: PrinterOptions,
    view: FitsView,
    machine: Machine,
    args: PrintElementArgs,
    depth: nat,
    base: nat,
    outer: Seq<StackFrame>,
)
    requires
        measures(view, machine),
        prints_flat(machine, base),
        outer.len() > base,
        args == top_args(outer),
        outer.is_prefix_of(machine.stack),
        open_entries(machine.stack, outer.len()) == depth,
        depth == 0 ==> machine.stack == outer && next_is(machine.queue, Tag::StartEntry),
        depth > 0 ==> machine.stack.len() > outer.len() && machine.stack[outer.len() as int].kind
            == StackFrameKind::Tag(TagKind::Entry),
        measured_through(options, view, base) is Some,
    ensures
        print_entry_rest(options, machine, args, depth) matches Ok(after) ==> exists|
            next: FitsView,
        | #[trigger]
            measures(next, after) && measured_through(options, next, base) == measured_through(
                options,
                view,
                base,
            ),
        print_entry_rest(options, machine, args, depth) matches Ok(after) ==> {
            &&& prints_flat(after, base)
            &&& after.stack == outer
            &&& stays_on_line(options, machine.state, after.state)
        },
    decreases
        machine.remaining().suffixes,
        machine.remaining().pending,
        machine.remaining().size,
        1nat,
{
    if machine.queue.len() > 0 {
        let element = machine.queue[0];
        let popped = machine.popped();
        let level = outer.len();
        lemma_popped_remaining(machine);
        if depth == 0 && element == FormatElement::Tag(Tag::StartEntry) {
            let inside = popped.entering(TagKind::Entry, args);
            let next = measure_next(options, view)->Ok_0.1;
            assert(args.mode == PrintMode::Flat) by {
                assert(machine.stack[level - 1].args.mode == PrintMode::Flat);
            }
            assert(args.in_mode(PrintMode::Flat) == args);
            assert(measures(next, inside));
            assert(inside.stack.drop_last() =~= outer);
            lemma_entry_rest_fits(options, next, inside, args, 1, base, outer);
        } else if element == FormatElement::Tag(Tag::EndEntry) && depth <= 1 {
            let next = measure_next(options, view)->Ok_0.1;
            lemma_single_entry(machine.stack, level);
            if let Ok(after) = popped.leaving(TagKind::Entry) {
                assert(measures(next, after));
                assert(after.stack =~= outer);
            }
        } else if !(element == FormatElement::Tag(Tag::StartEntry) && depth >= i32::MAX) {
            lemma_element_fits(options, view, machine, base);
            if let Ok(after) = advanced(
                machine.remaining(),
                print_element(options, popped, element),
            ) {
                let next = choose|next: FitsView| #[trigger]
                    measures(next, after) && measured_through(options, next, base)
                        == measured_through(options, view, base);
                lemma_entries_behind(element, machine.stack, after.stack, level);
                lemma_entry_rest_fits(
                    options,
                    next,
                    after,
                    args,
                    depth_behind(element, depth),
                    base,
                    outer,
                );
            }
        }
    }
}

/// If there is one entry among the parts from `level` on, with which they start, and they end with an
/// entry, there is no other part.
proof fn lemma_single_entry(stack: Seq<StackFrame>, level: nat)
    requires
        stack.len() > level,
        stack[level as int].kind == StackFrameKind::Tag(TagKind::Entry),
        open_entries(stack, level) == 1,
    ensures
        stack.last().kind == StackFrameKind::Tag(TagKind::Entry) ==> stack.len() == level + 1,
{
    if stack.last().kind == StackFrameKind::Tag(TagKind::Entry) && stack.len() > level + 1 {
        lemma_has_entry(stack.drop_last(), level);
    }
}

proof fn lemma_has_entry(stack: Seq<StackFrame>, level: nat)
    requires
        stack.len() > level,
        stack[level as int].kind == StackFrameKind::Tag(TagKind::Entry),
    ensures
        open_entries(stack, level) >= 1,
    decreases stack.len(),
{
    if stack.len() > level + 1 {
        lemma_has_entry(stack.drop_last(), level);
    }
}

/// The number of open entries changes with the start and the end of entries only.
proof fn lemma_entries_behind(
    element: FormatElement,
    before: Seq<StackFrame>,
    after: Seq<StackFrame>,
    level: nat,
)
    requires
        stack_behind(element, before, after),
        before.len() > level ==> before[level as int].kind == StackFrameKind::Tag(TagKind::Entry),
        before.len() >= level,
        element == FormatElement::Tag(Tag::EndEntry) ==> open_entries(before, level) >= 2,
        before.len() == level ==> !(element is Tag),
    ensures
        open_entries(after, level) == depth_behind(element, open_entries(before, level)),
        after.len() >= level,
        after.take(level as int) == before.take(level as int),
        before.len() > level ==> after.len() > level && after[level as int] == before[level as int],
        before.len() == level ==> after == before,
{
    if let FormatElement::Tag(tag) = element {
        if tag.starts() {
            if after != before {
                let args = choose|args: PrintElementArgs| after == #[trigger]
                    push_frame(before, tag.marks(), args);
                assert(after.drop_last() =~= before);
                assert(after.take(level as int) =~= before.take(level as int));
            }
        } else {
            if before.len() == level + 1 {
                assert(before.drop_last().len() == level);
                assert(open_entries(before.drop_last(), level) == 0);
            }
            assert(after.take(level as int) =~= before.take(level as int));
        }
    }
}

/// Prints what is queued up to the end of the parts of the stack from `base` on, or up to the end of
/// the queue.
pub open spec fn printed_through(options: PrinterOptions, machine: Machine, base: nat) -> Outcome
    decreases
        machine.remaining().suffixes,
        machine.remaining().pending,
        machine.remaining().size,
{
    if machine.stack.len() <= base || machine.queue.len() == 0 {
        Ok(machine)
    } else {
        proof {
            lemma_popped_remaining(machine);
            lemma_element_progress(options, machine.popped(), machine.queue[0]);
        }
        match print_element(options, machine.popped(), machine.queue[0]) {
            Ok(after) => printed_through(options, after, base),
            Err(halt) => Err(halt),
        }
    }
}

proof fn lemma_through_fits(options: PrinterOptions, view: FitsView, machine: Machine, base: nat)
    requires
        measures(view, machine),
        prints_flat(machine, base),
        measured_through(options, view, base) is Some,
    ensures
        printed_through(options, machine, base) matches Ok(after) ==> {
            &&& stays_on_line(options, machine.state, after.state)
            &&& after.state.measured_group_fits
        },
    decreases
        machine.remaining().suffixes,
        machine.remaining().pending,
        machine.remaining().size,
{
    if machine.stack.len() > base && machine.queue.len() > 0 {
        lemma_popped_remaining(machine);
        lemma_element_progress(options, machine.popped(), machine.queue[0]);
        lemma_element_fits(options, view, machine, base);
        if let Ok(after) = print_element(options, machine.popped(), machine.queue[0]) {
            let next = choose|next: FitsView| #[trigger]
                measures(next, after) && measured_through(options, next, base)
                    == measured_through(options, view, base);
            lemma_through_fits(options, next, after, base);
        }
    }
}

/// The view that measuring what is queued starts with.
pub open spec fn measuring_queue(machine: Machine) -> FitsView {
    measuring(machine.state, machine.stack, machine.indents, machine.queue, false)
}

/// Flat content that was measured to its end without meeting a line break is printed on the line,
/// within the print width: what is known to fit does fit.
pub proof fn lemma_measured_content_fits(options: PrinterOptions, machine: Machine, base: nat)
    requires
        prints_flat(machine, base),
        measured_through(options, measuring_queue(machine), base) is Some,
    ensures
        printed_through(options, machine, base) matches Ok(after) ==> stays_on_line(
            options,
            machine.state,
            after.state,
        ),
{
    lemma_through_fits(options, measuring_queue(machine), machine, base);
}

/// A group that is measured is printed flat if it fits on the line, and expanded if it does not.
pub proof fn lemma_group_is_flat_if_it_fits(
    options: PrinterOptions,
    machine: Machine,
    group: Group,
)
    requires
        group.mode == GroupMode::Flat,
        !(machine.mode() == PrintMode::Flat && machine.state.measured_group_fits),
    ensures
        ({
            let start = machine.with_measured(true).with_group_modes(
                with_group_mode(machine.state.group_modes, group.id, PrintMode::Flat),
            );
            let args = top_args(machine.stack);
            let flat = start.entering(TagKind::Group, args.in_mode(PrintMode::Flat));
            match fits_on_line(options, flat) {
                Ok((true, group_modes)) => start_group(options, machine, group) == Ok::<
                    Machine,
                    Stop<Machine>,
                >(
                    flat.with_group_modes(
                        with_group_mode(group_modes, group.id, PrintMode::Flat),
                    ),
                ),
                Ok((false, group_modes)) => start_group(options, machine, group) == Ok::<
                    Machine,
                    Stop<Machine>,
                >(
                    start.entering(
                        TagKind::Group,
                        args.in_mode(PrintMode::Expanded),
                    ).with_group_modes(
                        with_group_mode(group_modes, group.id, PrintMode::Expanded),
                    ),
                ),
                Err(stop) => start_group(options, machine, group) == Err::<Machine, Stop<Machine>>(
                    stop.with(
                        start.entering(
                            TagKind::Group,
                            args.in_mode(PrintMode::Flat),
                        ).with_group_modes(stop.left()),
                    ),
                ),
            }
        }),
{
}

/// A group that is printed flat, and is measured to its end without meeting a line break, is printed
/// on the line, within the print width.
pub proof fn lemma_group_stays_on_line(
    options: PrinterOptions,
    machine: Machine,
    group: Group,
    inside: Machine,
)
    requires
        start_group(options, machine, group) == Ok::<Machine, Stop<Machine>>(inside),
        inside.mode() == PrintMode::Flat,
        measured_through(options, measuring_queue(inside), machine.stack.len()) is Some,
    ensures
        printed_through(options, inside, machine.stack.len()) matches Ok(after) ==> stays_on_line(
            options,
            inside.state,
            after.state,
        ),
{
    let base = machine.stack.len();
    assert(inside.stack.len() == base + 1);
    assert(prints_flat(inside, base));
    lemma_measured_content_fits(options, inside, base);
}

} // verus!
