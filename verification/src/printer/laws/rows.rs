//! How texts, spaces and soft line breaks are laid out: on one line where they fit, and on several
//! lines otherwise.

use crate::format_element::{FormatElement, LineMode};
use crate::options::PrinterOptions;
use crate::printer::call_stack::{top_args, PrintElementArgs, StackFrame, StackFrameKind};
use crate::printer::fits::{
    fits_content, fits_element, lemma_fits_element_progress, measuring, Fits, FitsEnd, FitsView,
};
use crate::printer::indention::Indention;
use crate::printer::laws::output::converted;
use crate::printer::laws::steps::{
    lemma_line_break, lemma_one_after_the_other, lemma_part_ends, lemma_soft_line_is_space,
    lemma_space_waits, line_endings,
};
use crate::printer::laws::widths::{
    indent_columns, indent_text, lemma_columns_positive, lemma_line_ending_chars, lemma_text_fits,
    lemma_text_printed, space_text, start_column, text_columns,
};
use crate::printer::machine::{with_group_mode, Machine};
use crate::printer::outcome::{print_element, print_queue, printed_document, starting};
use crate::printer::state::{initial_state, StateView, Stop};
use crate::printer::text::after_text;
use crate::printer::width::columns;
use crate::tag::{Group, GroupMode, PrintMode, Tag, TagKind};
use crate::text_size::{byte_len, TextSize};
use vstd::prelude::*;

verus! {

/// Whether the text has no line break, and its end can be mapped to the source.
pub open spec fn is_inline_text(text: Seq<char>, source_position: Option<TextSize>) -> bool {
    &&& !text.contains('\n')
    &&& source_position matches Some(position) ==> position.raw + byte_len(text) <= u32::MAX
}

/// Whether the element is a text without a line break, a space or a soft line break.
pub open spec fn is_inline(element: FormatElement) -> bool {
    match element {
        FormatElement::Space => true,
        FormatElement::Line(line_mode) => line_mode == LineMode::Soft || line_mode
            == LineMode::SoftOrSpace,
        FormatElement::StaticText { text } => is_inline_text(text@, None),
        FormatElement::DynamicText { text, source_position } => is_inline_text(
            text@,
            Some(source_position),
        ),
        FormatElement::LocatedTokenText { slice, source_position } => is_inline_text(
            slice@,
            Some(source_position),
        ),
        _ => false,
    }
}

/// Whether all elements are inline.
pub open spec fn all_inline(content: Seq<FormatElement>) -> bool {
    forall|i: int| 0 <= i < content.len() ==> #[trigger] is_inline(content[i])
}

/// The characters of a text element.
pub open spec fn text_in(element: FormatElement) -> Option<Seq<char>> {
    match element {
        FormatElement::StaticText { text } => Some(text@),
        FormatElement::DynamicText { text, .. } => Some(text@),
        FormatElement::LocatedTokenText { slice, .. } => Some(slice@),
        _ => None,
    }
}

/// How far a line goes, and what is pending on it.
pub struct Span {
    pub width: int,
    pub indent: Indention,
    pub space: bool,
}

/// How far the line goes behind an inline element that stays on it. A soft line break that may be a
/// space counts as one, even at the start of the line.
pub open spec fn span_behind(options: PrinterOptions, span: Span, element: FormatElement) -> Span {
    match text_in(element) {
        Some(text) => Span {
            width: start_column(options, span.width, span.indent, span.space) + text_columns(
                options,
                text,
            ),
            indent: Indention::Level(0),
            space: false,
        },
        None => match element {
            FormatElement::Line(LineMode::SoftOrSpace) => Span { space: true, ..span },
            FormatElement::Space => Span { space: span.space || span.width > 0, ..span },
            _ => span,
        },
    }
}

/// How far the line goes behind inline content that stays on it.
pub open spec fn flat_span(
    options: PrinterOptions,
    span: Span,
    content: Seq<FormatElement>,
) -> Span
    decreases content.len(),
{
    if content.len() == 0 {
        span
    } else {
        flat_span(options, span_behind(options, span, content[0]), content.drop_first())
    }
}

/// How far the line goes where measuring is.
pub open spec fn span_of_view(view: FitsView) -> Span {
    Span {
        width: view.line_width,
        indent: view.pending_indent,
        space: view.pending_space,
    }
}

/// How far the line goes where the printer is.
pub open spec fn span_of(state: StateView) -> Span {
    Span {
        width: state.line_width,
        indent: state.pending_indent,
        space: state.pending_space,
    }
}

/// The view where measuring has come so far, with the given elements behind.
pub open spec fn moved(view: FitsView, span: Span, queue: Seq<FormatElement>) -> FitsView {
    FitsView {
        line_width: span.width,
        pending_indent: span.indent,
        pending_space: span.space,
        queue,
        ..view
    }
}

proof fn lemma_indent_columns_positive(options: PrinterOptions, indention: Indention)
    ensures
        indent_columns(options, indention) >= 0,
{
    assert(indention.levels() * options.indent_width.columns >= 0) by (nonlinear_arith);
}

/// A line gets no shorter.
pub proof fn lemma_span_grows(options: PrinterOptions, span: Span, content: Seq<FormatElement>)
    ensures
        flat_span(options, span, content).width >= span.width,
    decreases content.len(),
{
    if content.len() > 0 {
        let next = span_behind(options, span, content[0]);
        lemma_indent_columns_positive(options, span.indent);
        if let Some(text) = text_in(content[0]) {
            lemma_columns_positive(options, text);
        }
        lemma_span_grows(options, next, content.drop_first());
    }
}

/// Inline content goes on behind its first part.
pub proof fn lemma_span_concat(
    options: PrinterOptions,
    span: Span,
    left: Seq<FormatElement>,
    right: Seq<FormatElement>,
)
    ensures
        flat_span(options, span, left + right) == flat_span(
            options,
            flat_span(options, span, left),
            right,
        ),
    decreases left.len(),
{
    if left.len() == 0 {
        assert(left + right =~= right);
    } else {
        assert((left + right)[0] == left[0]);
        assert((left + right).drop_first() =~= left.drop_first() + right);
        lemma_span_concat(
            options,
            span_behind(options, span, left[0]),
            left.drop_first(),
            right,
        );
    }
}

/// Measuring an inline element that stays within the print width goes on behind it.
proof fn lemma_inline_element_measured(
    options: PrinterOptions,
    view: FitsView,
    element: FormatElement,
)
    requires
        is_inline(element),
        view.stack.last().args.mode == PrintMode::Flat,
        span_behind(options, span_of_view(view), element).width <= usize::MAX,
        view.line_width <= options.print_width.columns || text_in(element) is Some,
    ensures
        fits_element(options, view, element) matches Ok((fits, after)) && {
            let span = span_behind(options, span_of_view(view), element);
            if span.width <= options.print_width.columns {
                fits == Fits::Maybe && after == moved(view, span, view.queue)
            } else {
                fits == Fits::No && after.queue == view.queue
            }
        },
{
    if let Some(text) = text_in(element) {
        lemma_text_fits(options, view, text);
    }
}

/// Measuring inline content that stays within the print width goes on behind it.
pub proof fn lemma_inline_measured(
    options: PrinterOptions,
    view: FitsView,
    content: Seq<FormatElement>,
    rest: Seq<FormatElement>,
    end: FitsEnd,
)
    requires
        all_inline(content),
        view.queue == content + rest,
        view.stack.last().args.mode == PrintMode::Flat,
        !(end is Done),
        flat_span(options, span_of_view(view), content).width <= options.print_width.columns,
    ensures
        fits_content(options, view, end) == fits_content(
            options,
            moved(view, flat_span(options, span_of_view(view), content), rest),
            end,
        ),
    decreases content.len(),
{
    let span = span_of_view(view);
    if content.len() == 0 {
        assert(content + rest =~= rest);
        assert(moved(view, span, rest) =~= view);
    } else {
        let element = content[0];
        let others = content.drop_first();
        let popped = FitsView { queue: view.queue.drop_first(), ..view };
        let next = span_behind(options, span, element);
        assert(view.queue[0] == element);
        assert(is_inline(content[0]));
        assert(view.queue.drop_first() =~= others + rest);
        lemma_span_grows(options, span, seq![element]);
        assert(seq![element].drop_first() =~= Seq::empty());
        assert(flat_span(options, next, Seq::<FormatElement>::empty()) == next);
        lemma_span_grows(options, next, others);
        lemma_inline_element_measured(options, popped, element);
        lemma_fits_element_progress(options, view);
        let after = moved(popped, next, popped.queue);
        assert(all_inline(others)) by {
            assert forall|i: int| 0 <= i < others.len() implies #[trigger] is_inline(
                others[i],
            ) by {
                assert(is_inline(content[i + 1]));
            }
        }
        assert(span_of_view(after) == next);
        lemma_inline_measured(options, after, others, rest, end);
        assert(moved(after, flat_span(options, next, others), rest) =~= moved(
            view,
            flat_span(options, span, content),
            rest,
        ));
    }
}

/// Inline content that exceeds the print width does not fit. Measuring stops somewhere in it.
pub proof fn lemma_inline_exceeds(
    options: PrinterOptions,
    view: FitsView,
    content: Seq<FormatElement>,
    rest: Seq<FormatElement>,
    end: FitsEnd,
)
    requires
        all_inline(content),
        view.queue == content + rest,
        view.stack.last().args.mode == PrintMode::Flat,
        view.line_width <= options.print_width.columns,
        !(end is Done),
        options.print_width.columns < flat_span(options, span_of_view(view), content).width
            <= usize::MAX,
    ensures
        fits_content(options, view, end) matches Ok((fits, after, left)) && !fits
            && after.group_modes == view.group_modes && left == end && (exists|i: int|
            0 <= i <= content.len() && after.queue == #[trigger] content.skip(i) + rest),
    decreases content.len(),
{
    let span = span_of_view(view);
    if content.len() > 0 {
        let element = content[0];
        let others = content.drop_first();
        let popped = FitsView { queue: view.queue.drop_first(), ..view };
        let next = span_behind(options, span, element);
        assert(view.queue[0] == element);
        assert(is_inline(content[0]));
        assert(view.queue.drop_first() =~= others + rest);
        lemma_span_grows(options, next, others);
        lemma_inline_element_measured(options, popped, element);
        lemma_fits_element_progress(options, view);
        if next.width <= options.print_width.columns {
            let after = moved(popped, next, popped.queue);
            assert(all_inline(others)) by {
                assert forall|i: int| 0 <= i < others.len() implies #[trigger] is_inline(
                    others[i],
                ) by {
                    assert(is_inline(content[i + 1]));
                }
            }
            assert(span_of_view(after) == next);
            lemma_inline_exceeds(options, after, others, rest, end);
            let left = fits_content(options, view, end)->Ok_0.1.queue;
            let i = choose|i: int|
                0 <= i <= others.len() && left == #[trigger] others.skip(i) + rest;
            assert(content.skip(i + 1) =~= others.skip(i));
        } else {
            assert(content.skip(1) =~= others);
        }
    }
}

/// Whether the line ends where the elements go on: there are none, or a line break comes first that is
/// one in the given mode.
pub open spec fn line_ends(rest: Seq<FormatElement>, mode: PrintMode) -> bool {
    rest.len() == 0 || (rest[0] matches FormatElement::Line(line_mode) && (mode
        == PrintMode::Expanded || line_mode == LineMode::Hard || line_mode == LineMode::Empty))
}

/// The mode of content that takes the given width: flat if it is within the print width.
pub open spec fn mode_for(options: PrinterOptions, width: int) -> PrintMode {
    if width <= options.print_width.columns {
        PrintMode::Flat
    } else {
        PrintMode::Expanded
    }
}

/// Where the line ends, everything on it fits.
proof fn lemma_line_end_fits(options: PrinterOptions, view: FitsView)
    requires
        line_ends(view.queue, view.stack.last().args.mode),
    ensures
        fits_content(options, view, FitsEnd::Document) matches Ok((fits, after, _)) && fits
            && after.group_modes == view.group_modes,
{
    if view.queue.len() > 0 {
        lemma_fits_element_progress(options, view);
    }
}

/// Measuring inline content of a part, with the end of the part and the end of the line behind it,
/// answers whether the content is within the print width.
pub proof fn lemma_inline_part_fits(
    options: PrinterOptions,
    view: FitsView,
    content: Seq<FormatElement>,
    end: Tag,
    rest: Seq<FormatElement>,
)
    requires
        all_inline(content),
        view.queue == content + seq![FormatElement::Tag(end)] + rest,
        end == Tag::EndGroup || end == Tag::EndEntry,
        view.stack.len() > 1,
        view.stack.last().kind == StackFrameKind::Tag(end.marks()),
        view.stack.last().args.mode == PrintMode::Flat,
        line_ends(rest, view.stack[view.stack.len() - 2].args.mode),
        view.line_width <= options.print_width.columns,
        flat_span(options, span_of_view(view), content).width <= usize::MAX,
    ensures
        fits_content(options, view, FitsEnd::Document) matches Ok((fits, after, _)) && fits == (
        flat_span(options, span_of_view(view), content).width <= options.print_width.columns)
            && after.group_modes == view.group_modes,
{
    let span = flat_span(options, span_of_view(view), content);
    let tail = seq![FormatElement::Tag(end)] + rest;
    assert(view.queue =~= content + tail);
    if span.width <= options.print_width.columns {
        lemma_inline_measured(options, view, content, tail, FitsEnd::Document);
        let behind = moved(view, span, tail);
        assert(tail.drop_first() =~= rest);
        lemma_fits_element_progress(options, behind);
        let popped = FitsView { queue: rest, ..behind };
        let outside = FitsView { stack: view.stack.drop_last(), ..popped };
        assert(fits_element(options, popped, FormatElement::Tag(end)) == Ok::<
            (Fits, FitsView),
            Stop<FitsView>,
        >((Fits::Maybe, outside)));
        assert(outside.stack.last() == view.stack[view.stack.len() - 2]);
        lemma_line_end_fits(options, outside);
    } else {
        lemma_inline_exceeds(options, view, content, tail, FitsEnd::Document);
    }
}

/// A group of texts, spaces and soft line breaks is printed in flat mode exactly if all of it, behind
/// what is on the line already, is within the print width of the options.
pub proof fn lemma_group_is_flat_if_its_width_allows(
    options: PrinterOptions,
    machine: Machine,
    group: Group,
    content: Seq<FormatElement>,
    rest: Seq<FormatElement>,
)
    requires
        group.mode == GroupMode::Flat,
        !(machine.stack.last().args.mode == PrintMode::Flat && machine.state.measured_group_fits),
        machine.stack.len() > 0,
        all_inline(content),
        machine.queue == content + seq![FormatElement::Tag(Tag::EndGroup)] + rest,
        line_ends(rest, machine.stack.last().args.mode),
        machine.state.line_width <= options.print_width.columns,
        flat_span(options, span_of(machine.state), content).width <= usize::MAX,
    ensures
        ({
            let mode = mode_for(
                options,
                flat_span(options, span_of(machine.state), content).width,
            );
            print_element(options, machine, FormatElement::Tag(Tag::StartGroup(group))) == Ok::<
                Machine,
                Stop<Machine>,
            >(
                (Machine {
                    state: StateView {
                        measured_group_fits: true,
                        group_modes: match group.id {
                            Some(id) => machine.state.group_modes.insert(id, mode),
                            None => machine.state.group_modes,
                        },
                        ..machine.state
                    },
                    stack: machine.stack.push(
                        StackFrame {
                            kind: StackFrameKind::Tag(TagKind::Group),
                            args: PrintElementArgs { mode },
                        },
                    ),
                    ..machine
                }),
            )
        }),
{
    let mode = mode_for(options, flat_span(options, span_of(machine.state), content).width);
    let start = machine.with_measured(true).with_group_modes(
        with_group_mode(machine.state.group_modes, group.id, PrintMode::Flat),
    );
    let inside = start.entering(
        TagKind::Group,
        top_args(machine.stack).in_mode(PrintMode::Flat),
    );
    let view = measuring(inside.state, inside.stack, inside.indents, inside.queue, false);
    assert(view.stack[view.stack.len() - 2] == machine.stack.last());
    assert(span_of_view(view) == span_of(machine.state));
    lemma_inline_part_fits(options, view, content, Tag::EndGroup, rest);
    let after = print_element(
        options,
        machine,
        FormatElement::Tag(Tag::StartGroup(group)),
    )->Ok_0;
    if let Some(id) = group.id {
        assert(after.state.group_modes =~= machine.state.group_modes.insert(id, mode));
    }
}

/// A line of the output: what was printed, how wide the line is, and what is pending on it.
pub struct Row {
    pub output: Seq<char>,
    pub width: int,
    pub indent: Indention,
    pub space: bool,
    pub empty: bool,
}

/// The line that the printer is on.
pub open spec fn row_of(state: StateView) -> Row {
    Row {
        output: state.buffer,
        width: state.line_width,
        indent: state.pending_indent,
        space: state.pending_space,
        empty: state.has_empty_line,
    }
}

/// The line behind an inline element. In flat mode soft line breaks are spaces or nothing, and in
/// expanded mode they end the line, unless nothing is on it. The next line has the given indention.
pub open spec fn row_behind(
    options: PrinterOptions,
    mode: PrintMode,
    indention: Indention,
    row: Row,
    element: FormatElement,
) -> Row {
    match text_in(element) {
        Some(text) => Row {
            output: row.output + (indent_text(options, row.indent) + space_text(row.space)) + text,
            width: start_column(options, row.width, row.indent, row.space) + text_columns(
                options,
                text,
            ),
            indent: Indention::Level(0),
            space: false,
            empty: row.empty && !row.space && text.len() == 0,
        },
        None => match element {
            FormatElement::Line(line_mode) => if mode == PrintMode::Flat {
                Row {
                    space: row.space || (line_mode == LineMode::SoftOrSpace && row.width > 0),
                    ..row
                }
            } else {
                Row {
                    output: row.output + (if row.width > 0 {
                        options.line_ending.chars()
                    } else {
                        Seq::empty()
                    }),
                    width: 0,
                    indent: indention,
                    space: false,
                    empty: row.empty && row.width <= 0,
                }
            },
            _ => Row { space: row.space || row.width > 0, ..row },
        },
    }
}

/// The line behind inline content.
pub open spec fn rows(
    options: PrinterOptions,
    mode: PrintMode,
    indention: Indention,
    row: Row,
    content: Seq<FormatElement>,
) -> Row
    decreases content.len(),
{
    if content.len() == 0 {
        row
    } else {
        rows(
            options,
            mode,
            indention,
            row_behind(options, mode, indention, row, content[0]),
            content.drop_first(),
        )
    }
}

/// Whether the output and the width of the line can be counted.
pub open spec fn has_room(row: Row) -> bool {
    &&& row.output.len() + 2 <= u32::MAX
    &&& byte_len(row.output) <= u32::MAX
    &&& 0 <= row.width <= usize::MAX
}

/// Whether all that is printed up to the end of the content can be counted.
pub open spec fn has_room_throughout(
    options: PrinterOptions,
    mode: PrintMode,
    indention: Indention,
    row: Row,
    content: Seq<FormatElement>,
) -> bool {
    forall|i: int|
        0 <= i <= content.len() ==> has_room(
            rows(options, mode, indention, row, #[trigger] content.take(i)),
        )
}

/// Whether the printer has counted no more lines and columns than characters.
pub open spec fn is_counted(state: StateView) -> bool {
    &&& 0 <= state.generated_line <= state.buffer.len()
    &&& 0 <= state.generated_column <= state.buffer.len()
}

/// Text without a line break needs no conversion.
proof fn lemma_unconverted(options: PrinterOptions, text: Seq<char>)
    requires
        !text.contains('\n'),
    ensures
        converted(options, text) == text,
    decreases text.len(),
{
    if text.len() == 0 {
        assert(converted(options, text) =~= text);
    } else {
        let before = text.drop_last();
        assert forall|i: int| 0 <= i < before.len() implies #[trigger] before[i] != '\n' by {
            assert(text.contains(text[i]));
        }
        assert(text.contains(text[text.len() - 1]));
        lemma_unconverted(options, before);
        assert(converted(options, text) =~= text);
    }
}

/// Whether nothing changed but the line that the printer is on, and what was measured in expanded
/// mode.
pub open spec fn only_row_changed(before: Machine, after: Machine) -> bool {
    &&& after.queue == before.queue
    &&& after.stack == before.stack
    &&& after.indents == before.indents
    &&& after.state.line_suffixes == before.state.line_suffixes
    &&& after.state.group_modes == before.state.group_modes
    &&& before.stack.last().args.mode == PrintMode::Flat ==> after.state.measured_group_fits
        == before.state.measured_group_fits
}

/// An inline element is printed on the line, or ends it.
pub proof fn lemma_inline_element_printed(
    options: PrinterOptions,
    machine: Machine,
    element: FormatElement,
)
    requires
        is_inline(element),
        machine.state.line_suffixes.len() == 0,
        machine.indents.stack.indentions.len() > 0,
        is_counted(machine.state),
        has_room(row_of(machine.state)),
        has_room(
            row_behind(
                options,
                machine.stack.last().args.mode,
                machine.indents.stack.indentions.last(),
                row_of(machine.state),
                element,
            ),
        ),
    ensures
        print_element(options, machine, element) matches Ok(after) && {
            &&& row_of(after.state) == row_behind(
                options,
                machine.stack.last().args.mode,
                machine.indents.stack.indentions.last(),
                row_of(machine.state),
                element,
            )
            &&& only_row_changed(machine, after)
            &&& is_counted(after.state)
        },
{
    match element {
        FormatElement::StaticText { text } => {
            lemma_inline_text_printed(options, machine.state, text@, None);
        },
        FormatElement::DynamicText { text, source_position } => {
            lemma_inline_text_printed(options, machine.state, text@, Some(source_position));
        },
        FormatElement::LocatedTokenText { slice, source_position } => {
            lemma_inline_text_printed(options, machine.state, slice@, Some(source_position));
        },
        FormatElement::Line(line_mode) => {
            lemma_soft_line_printed(options, machine, line_mode);
        },
        _ => {
            lemma_space_waits(options, machine, element);
        },
    }
}

proof fn lemma_soft_line_printed(options: PrinterOptions, machine: Machine, line_mode: LineMode)
    requires
        line_mode == LineMode::Soft || line_mode == LineMode::SoftOrSpace,
        machine.state.line_suffixes.len() == 0,
        machine.indents.stack.indentions.len() > 0,
        is_counted(machine.state),
        has_room(row_of(machine.state)),
    ensures
        print_element(options, machine, FormatElement::Line(line_mode)) matches Ok(after) && {
            &&& row_of(after.state) == row_behind(
                options,
                machine.stack.last().args.mode,
                machine.indents.stack.indentions.last(),
                row_of(machine.state),
                FormatElement::Line(line_mode),
            )
            &&& only_row_changed(machine, after)
            &&& is_counted(after.state)
        },
{
    let state = machine.state;
    if machine.stack.last().args.mode == PrintMode::Flat {
        lemma_soft_line_is_space(options, machine);
        lemma_space_waits(options, machine, FormatElement::Space);
    } else {
        lemma_line_break(options, machine, line_mode);
        lemma_line_ending_chars();
        assert(options.line_ending.chars().len() >= 1);
        assert(line_endings(state, line_mode) <= 1);
        assert(state.buffer + Seq::<char>::empty() =~= state.buffer);
    }
}

proof fn lemma_inline_text_printed(
    options: PrinterOptions,
    state: StateView,
    text: Seq<char>,
    source_position: Option<TextSize>,
)
    requires
        is_inline_text(text, source_position),
        is_counted(state),
        has_room(row_of(state)),
        state.buffer.len() + indent_text(options, state.pending_indent).len() + space_text(
            state.pending_space,
        ).len() + text.len() + 2 <= u32::MAX,
        byte_len(
            state.buffer + (indent_text(options, state.pending_indent) + space_text(
                state.pending_space,
            )) + text,
        ) <= u32::MAX,
        start_column(
            options,
            state.line_width,
            state.pending_indent,
            state.pending_space,
        ) + text_columns(options, text) <= usize::MAX,
    ensures
        after_text(options, state, text, source_position) matches Ok(after) && {
            &&& row_of(after) == (Row {
                output: state.buffer + (indent_text(options, state.pending_indent) + space_text(
                    state.pending_space,
                )) + text,
                width: start_column(
                    options,
                    state.line_width,
                    state.pending_indent,
                    state.pending_space,
                ) + text_columns(options, text),
                indent: Indention::Level(0),
                space: false,
                empty: state.has_empty_line && !state.pending_space && text.len() == 0,
            })
            &&& is_counted(after)
            &&& after.line_suffixes == state.line_suffixes
            &&& after.group_modes == state.group_modes
            &&& after.measured_group_fits == state.measured_group_fits
        },
{
    lemma_unconverted(options, text);
    lemma_text_printed(options, state, text, source_position);
}

/// Inline content is printed row by row.
pub proof fn lemma_inline_printed(
    options: PrinterOptions,
    machine: Machine,
    content: Seq<FormatElement>,
    rest: Seq<FormatElement>,
) -> (after: Machine)
    requires
        all_inline(content),
        machine.queue == content + rest,
        rest.len() > 0,
        machine.state.line_suffixes.len() == 0,
        machine.indents.stack.indentions.len() > 0,
        is_counted(machine.state),
        has_room_throughout(
            options,
            machine.stack.last().args.mode,
            machine.indents.stack.indentions.last(),
            row_of(machine.state),
            content,
        ),
    ensures
        print_queue(options, machine) == print_queue(options, after),
        row_of(after.state) == rows(
            options,
            machine.stack.last().args.mode,
            machine.indents.stack.indentions.last(),
            row_of(machine.state),
            content,
        ),
        only_row_changed((Machine { queue: rest, ..machine }), after),
        is_counted(after.state),
    decreases content.len(),
{
    let mode = machine.stack.last().args.mode;
    let indention = machine.indents.stack.indentions.last();
    let row = row_of(machine.state);
    if content.len() == 0 {
        assert(content + rest =~= rest);
        machine
    } else {
        let element = content[0];
        let others = content.drop_first();
        let popped = machine.popped();
        assert(machine.queue[0] == element);
        assert(is_inline(content[0]));
        assert(popped.queue =~= others + rest);
        lemma_room_in_front(options, mode, indention, row, content);
        lemma_inline_element_printed(options, popped, element);
        lemma_one_after_the_other(options, machine, Seq::empty());
        let next = print_element(options, popped, element)->Ok_0;
        assert(all_inline(others)) by {
            assert forall|i: int| 0 <= i < others.len() implies #[trigger] is_inline(
                others[i],
            ) by {
                assert(is_inline(content[i + 1]));
            }
        }
        lemma_inline_printed(options, next, others, rest)
    }
}

/// Room throughout content is room for its first element, and throughout the others.
pub proof fn lemma_room_in_front(
    options: PrinterOptions,
    mode: PrintMode,
    indention: Indention,
    row: Row,
    content: Seq<FormatElement>,
)
    requires
        has_room_throughout(options, mode, indention, row, content),
        content.len() > 0,
    ensures
        has_room(row),
        has_room(row_behind(options, mode, indention, row, content[0])),
        has_room_throughout(
            options,
            mode,
            indention,
            row_behind(options, mode, indention, row, content[0]),
            content.drop_first(),
        ),
{
    let others = content.drop_first();
    let next = row_behind(options, mode, indention, row, content[0]);
    assert(rows(options, mode, indention, row, content.take(0)) == row);
    assert forall|i: int| 0 <= i <= others.len() implies has_room(
        rows(options, mode, indention, next, #[trigger] others.take(i)),
    ) by {
        let taken = content.take(i + 1);
        assert(taken[0] == content[0]);
        assert(taken.drop_first() =~= others.take(i));
    }
    assert(others.take(0).len() == 0);
    assert(rows(options, mode, indention, next, others.take(0)) == next);
}

/// The line before anything is printed.
pub open spec fn first_row() -> Row {
    Row {
        output: Seq::empty(),
        width: 0,
        indent: Indention::Level(0),
        space: false,
        empty: false,
    }
}

/// How far the line goes before anything is printed.
pub open spec fn first_span() -> Span {
    Span { width: 0, indent: Indention::Level(0), space: false }
}

/// A document that is a group of texts, spaces and soft line breaks is printed on one line if it is
/// within the print width of the options, and with a line break for every soft line break otherwise.
pub proof fn lemma_group_document(
    options: PrinterOptions,
    group: Group,
    content: Seq<FormatElement>,
    indent: u16,
)
    requires
        all_inline(content),
        group.mode == GroupMode::Flat,
        flat_span(options, first_span(), content).width <= usize::MAX,
        has_room_throughout(
            options,
            mode_for(options, flat_span(options, first_span(), content).width),
            Indention::Level(indent),
            first_row(),
            content,
        ),
    ensures
        printed_document(
            options,
            initial_state(),
            seq![FormatElement::Tag(Tag::StartGroup(group))] + content + seq![
                FormatElement::Tag(Tag::EndGroup),
            ],
            indent,
        ) matches Ok(printed) && printed.code == rows(
            options,
            mode_for(options, flat_span(options, first_span(), content).width),
            Indention::Level(indent),
            first_row(),
            content,
        ).output,
{
    let mode = mode_for(options, flat_span(options, first_span(), content).width);
    let opening = FormatElement::Tag(Tag::StartGroup(group));
    let end = seq![FormatElement::Tag(Tag::EndGroup)];
    let document = seq![opening] + content + end;
    let none: Seq<FormatElement> = Seq::empty();
    let start = starting(initial_state(), document, indent);
    assert(document[0] == opening);
    assert(document.drop_first() =~= content + end + none);
    let popped = start.popped();
    lemma_group_is_flat_if_its_width_allows(options, popped, group, content, none);
    lemma_one_after_the_other(options, start, Seq::empty());
    let inside = print_element(options, popped, opening)->Ok_0;
    assert(content + end + none =~= content + end);
    assert(inside.queue.len() > 0);
    let behind = lemma_inline_printed(options, inside, content, end);
    assert(end.drop_first() =~= none);
    lemma_part_ends(options, behind.popped(), Tag::EndGroup);
    lemma_one_after_the_other(options, behind, Seq::empty());
    let after = print_element(options, behind.popped(), end[0])->Ok_0;
    lemma_one_after_the_other(options, after, Seq::empty());
}

/// A document of texts, spaces and soft line breaks outside of all groups is printed with a line break
/// for every soft line break.
pub proof fn lemma_document_without_groups(
    options: PrinterOptions,
    content: Seq<FormatElement>,
    last: FormatElement,
    indent: u16,
)
    requires
        all_inline(content),
        is_inline(last),
        has_room_throughout(
            options,
            PrintMode::Expanded,
            Indention::Level(indent),
            first_row(),
            content.push(last),
        ),
    ensures
        printed_document(options, initial_state(), content.push(last), indent) matches Ok(printed)
            && printed.code == rows(
            options,
            PrintMode::Expanded,
            Indention::Level(indent),
            first_row(),
            content.push(last),
        ).output,
{
    let mode = PrintMode::Expanded;
    let indention = Indention::Level(indent);
    let document = content.push(last);
    let start = starting(initial_state(), document, indent);
    assert(document =~= content + seq![last]);
    assert(has_room_throughout(options, mode, indention, first_row(), content)) by {
        assert forall|i: int| 0 <= i <= content.len() implies has_room(
            rows(options, mode, indention, first_row(), #[trigger] content.take(i)),
        ) by {
            assert(document.take(i) =~= content.take(i));
        }
    }
    assert(document.take(document.len() as int) =~= document);
    let behind = lemma_inline_printed(options, start, content, seq![last]);
    lemma_rows_concat(options, mode, indention, first_row(), content, seq![last]);
    let before = rows(options, mode, indention, first_row(), content);
    lemma_single_row(options, mode, indention, before, last);
    assert(content.take(content.len() as int) =~= content);
    assert(seq![last].drop_first() =~= Seq::empty());
    lemma_inline_element_printed(options, behind.popped(), last);
    lemma_one_after_the_other(options, behind, Seq::empty());
    let after = print_element(options, behind.popped(), last)->Ok_0;
    lemma_one_after_the_other(options, after, Seq::empty());
}

proof fn lemma_single_row(
    options: PrinterOptions,
    mode: PrintMode,
    indention: Indention,
    row: Row,
    element: FormatElement,
)
    ensures
        rows(options, mode, indention, row, seq![element]) == row_behind(
            options,
            mode,
            indention,
            row,
            element,
        ),
{
    let next = row_behind(options, mode, indention, row, element);
    assert(seq![element].drop_first() =~= Seq::empty());
    assert(rows(options, mode, indention, next, Seq::empty()) == next);
}

/// Inline content goes on behind its first part.
pub proof fn lemma_rows_concat(
    options: PrinterOptions,
    mode: PrintMode,
    indention: Indention,
    row: Row,
    left: Seq<FormatElement>,
    right: Seq<FormatElement>,
)
    ensures
        rows(options, mode, indention, row, left + right) == rows(
            options,
            mode,
            indention,
            rows(options, mode, indention, row, left),
            right,
        ),
    decreases left.len(),
{
    if left.len() == 0 {
        assert(left + right =~= right);
    } else {
        assert((left + right)[0] == left[0]);
        assert((left + right).drop_first() =~= left.drop_first() + right);
        lemma_rows_concat(
            options,
            mode,
            indention,
            row_behind(options, mode, indention, row, left[0]),
            left.drop_first(),
            right,
        );
    }
}

} // verus!
