//! How entries of texts, spaces and soft line breaks are laid out, and the fills and variants that
//! are made of them.

use crate::format_element::{BestFittingElement, FormatElement};
use crate::options::PrinterOptions;
use crate::printer::call_stack::{PrintElementArgs, StackFrame, StackFrameKind};
use crate::printer::fits::{
    fits_content, fits_element, fits_entry, lemma_fits_element_progress, Fits, FitsEnd, FitsView,
};
use crate::printer::indention::Indention;
use crate::printer::laws::basics::{
    lemma_entry_end_measured, lemma_entry_goes_on, lemma_entry_measured, lemma_entry_printed,
    lemma_what_comes_next,
};
use crate::printer::laws::choices::{
    about_to_print, is_measured, lemma_first_variant_that_fits, lemma_last_variant,
    measuring_variant, none_fits,
};
use crate::printer::laws::fills::{
    behind_measuring, fits_at, fits_in_row, lemma_break_before_item, lemma_fill_starts,
    lemma_fill_that_fits, print_row,
};
use crate::printer::laws::rows::{
    all_inline, first_row, first_span, flat_span, has_room, has_room_throughout, is_counted,
    is_inline, lemma_inline_element_printed, lemma_inline_exceeds, lemma_inline_measured,
    lemma_inline_part_fits, lemma_room_in_front, lemma_rows_concat, lemma_span_concat,
    lemma_span_grows, moved, only_row_changed, row_of, rows, span_of, span_of_view, Row,
};
use crate::printer::laws::steps::{lemma_one_after_the_other, lemma_part_ends};
use crate::printer::machine::Machine;
use crate::printer::outcome::{
    measuring_flat, print_element, print_entry, print_entry_rest, print_fill_line, printed_document,
    starting,
};
use crate::printer::queue::entry_ends;
use crate::printer::state::{initial_state, Stop};
use crate::tag::{PrintMode, Tag, TagKind};
use vstd::prelude::*;

verus! {

/// An entry with the given content.
pub open spec fn entry_of(content: Seq<FormatElement>) -> Seq<FormatElement> {
    seq![FormatElement::Tag(Tag::StartEntry)] + content + seq![FormatElement::Tag(Tag::EndEntry)]
}

/// The entry that is open ends behind inline content.
proof fn lemma_end_comes(content: Seq<FormatElement>, rest: Seq<FormatElement>)
    requires
        all_inline(content),
    ensures
        entry_ends(content + (seq![FormatElement::Tag(Tag::EndEntry)] + rest), 1) == Some(true),
    decreases content.len(),
{
    let tail = seq![FormatElement::Tag(Tag::EndEntry)] + rest;
    let all = content + tail;
    if content.len() == 0 {
        assert(all =~= tail);
        assert(all[0] == FormatElement::Tag(Tag::EndEntry));
    } else {
        let others = content.drop_first();
        assert(is_inline(content[0]));
        assert(all[0] == content[0]);
        assert(all.drop_first() =~= others + tail);
        assert forall|i: int| 0 <= i < others.len() implies #[trigger] is_inline(others[i]) by {
            assert(is_inline(content[i + 1]));
        }
        lemma_end_comes(others, rest);
    }
}

/// An entry of texts, spaces and soft line breaks fits in flat mode exactly if all of it, behind what
/// is on the line already, is within the print width. Measuring goes on behind it.
pub proof fn lemma_inline_entry_measured(
    options: PrinterOptions,
    view: FitsView,
    content: Seq<FormatElement>,
    rest: Seq<FormatElement>,
)
    requires
        all_inline(content),
        view.queue == entry_of(content) + rest,
        view.line_width <= options.print_width.columns,
        flat_span(options, span_of_view(view), content).width <= usize::MAX,
    ensures
        fits_entry(options, view, PrintMode::Flat) matches Ok((fits, after)) && {
            let span = flat_span(options, span_of_view(view), content);
            &&& fits == (span.width <= options.print_width.columns)
            &&& fits ==> after == moved(view, span, rest)
            &&& after.group_modes == view.group_modes
        },
{
    let span = flat_span(options, span_of_view(view), content);
    let args = PrintElementArgs { mode: PrintMode::Flat };
    let end = FormatElement::Tag(Tag::EndEntry);
    let tail = seq![end] + rest;
    let in_fill = view.stack.push(
        StackFrame { kind: StackFrameKind::Tag(TagKind::Fill), args },
    );
    let in_entry = in_fill.push(StackFrame { kind: StackFrameKind::Tag(TagKind::Entry), args });
    let start = FitsView { stack: in_fill, ..view };
    let popped = FitsView { queue: view.queue.drop_first(), ..start };
    let inside = FitsView { stack: in_entry, ..popped };
    assert(view.queue[0] == FormatElement::Tag(Tag::StartEntry));
    assert(view.queue.drop_first() =~= content + tail);
    assert(span_of_view(inside) == span_of_view(view));
    lemma_what_comes_next(view.queue, Tag::StartEntry);
    lemma_fits_element_progress(options, start);
    assert(fits_element(options, popped, view.queue[0]) == Ok::<_, Stop<FitsView>>(
        (Fits::Maybe, inside),
    ));
    let inner_end = FitsEnd::Entry { depth: 1 };
    assert(fits_content(options, start, FitsEnd::Entry { depth: 0 }) == fits_content(
        options,
        inside,
        inner_end,
    ));
    if span.width <= options.print_width.columns {
        lemma_inline_measured(options, inside, content, tail, inner_end);
        let behind = moved(inside, span, tail);
        let last = FitsView { queue: rest, ..behind };
        let outside = FitsView { stack: in_fill, ..last };
        assert(tail.drop_first() =~= rest);
        lemma_fits_element_progress(options, behind);
        assert(in_entry.drop_last() =~= in_fill);
        assert(fits_element(options, last, end) == Ok::<_, Stop<FitsView>>((Fits::Maybe, outside)));
        lemma_entry_end_measured(options, behind, 1, outside);
        assert(in_fill.drop_last() =~= view.stack);
        lemma_entry_measured(options, view, PrintMode::Flat, true, outside, FitsEnd::Done);
        assert(FitsView { stack: view.stack, ..outside } =~= moved(view, span, rest));
    } else {
        lemma_inline_exceeds(options, inside, content, tail, inner_end);
        let stopped = fits_content(options, inside, inner_end)->Ok_0.1;
        let i = choose|i: int|
            0 <= i <= content.len() && stopped.queue == #[trigger] content.skip(i) + tail;
        let left = content.skip(i);
        assert forall|j: int| 0 <= j < left.len() implies #[trigger] is_inline(left[j]) by {
            assert(is_inline(content[i + j]));
        }
        lemma_end_comes(left, rest);
        lemma_entry_measured(options, view, PrintMode::Flat, false, stopped, inner_end);
    }
}

/// Inside of an entry inline content is printed row by row.
proof fn lemma_inline_in_entry(
    options: PrinterOptions,
    machine: Machine,
    args: PrintElementArgs,
    content: Seq<FormatElement>,
    rest: Seq<FormatElement>,
) -> (after: Machine)
    requires
        all_inline(content),
        machine.queue == content + rest,
        machine.stack.last().args == args,
        machine.state.line_suffixes.len() == 0,
        machine.indents.stack.indentions.len() > 0,
        is_counted(machine.state),
        has_room_throughout(
            options,
            args.mode,
            machine.indents.stack.indentions.last(),
            row_of(machine.state),
            content,
        ),
    ensures
        print_entry_rest(options, machine, args, 1) == print_entry_rest(options, after, args, 1),
        row_of(after.state) == rows(
            options,
            args.mode,
            machine.indents.stack.indentions.last(),
            row_of(machine.state),
            content,
        ),
        only_row_changed((Machine { queue: rest, ..machine }), after),
        is_counted(after.state),
    decreases content.len(),
{
    let indention = machine.indents.stack.indentions.last();
    let row = row_of(machine.state);
    if content.len() == 0 {
        assert(content + rest =~= rest);
        machine
    } else {
        let element = content[0];
        let others = content.drop_first();
        let popped = Machine { queue: machine.queue.drop_first(), ..machine };
        assert(machine.queue[0] == element);
        assert(is_inline(content[0]));
        assert(popped.queue =~= others + rest);
        lemma_room_in_front(options, args.mode, indention, row, content);
        lemma_inline_element_printed(options, popped, element);
        lemma_entry_goes_on(options, machine, args, 1);
        let next = print_element(options, popped, element)->Ok_0;
        assert forall|i: int| 0 <= i < others.len() implies #[trigger] is_inline(others[i]) by {
            assert(is_inline(content[i + 1]));
        }
        lemma_inline_in_entry(options, next, args, others, rest)
    }
}

/// An entry of texts, spaces and soft line breaks is printed row by row in the given mode.
pub proof fn lemma_inline_entry_printed(
    options: PrinterOptions,
    machine: Machine,
    args: PrintElementArgs,
    content: Seq<FormatElement>,
    rest: Seq<FormatElement>,
) -> (after: Machine)
    requires
        all_inline(content),
        machine.queue == entry_of(content) + rest,
        machine.state.line_suffixes.len() == 0,
        machine.indents.stack.indentions.len() > 0,
        is_counted(machine.state),
        has_room_throughout(
            options,
            args.mode,
            machine.indents.stack.indentions.last(),
            row_of(machine.state),
            content,
        ),
    ensures
        print_entry(options, machine, args) == Ok::<Machine, Stop<Machine>>(after),
        row_of(after.state) == rows(
            options,
            args.mode,
            machine.indents.stack.indentions.last(),
            row_of(machine.state),
            content,
        ),
        after.queue == rest,
        after.stack == machine.stack,
        after.indents == machine.indents,
        after.state.line_suffixes == machine.state.line_suffixes,
        after.state.group_modes == machine.state.group_modes,
        is_counted(after.state),
{
    let end = FormatElement::Tag(Tag::EndEntry);
    let tail = seq![end] + rest;
    let inside = Machine {
        stack: machine.stack.push(StackFrame { kind: StackFrameKind::Tag(TagKind::Entry), args }),
        queue: machine.queue.drop_first(),
        ..machine
    };
    assert(machine.queue[0] == FormatElement::Tag(Tag::StartEntry));
    assert(inside.queue =~= content + tail);
    lemma_entry_printed(options, machine, args);
    let behind = lemma_inline_in_entry(options, inside, args, content, tail);
    let last = Machine { queue: behind.queue.drop_first(), ..behind };
    assert(last.queue =~= rest);
    lemma_entry_goes_on(options, behind, args, 1);
    lemma_part_ends(options, last, Tag::EndEntry);
    assert(inside.stack.drop_last() =~= machine.stack);
    Machine { stack: machine.stack, ..last }
}

/// The entries with the given contents, one after the other.
pub open spec fn entries_of(contents: Seq<Seq<FormatElement>>) -> Seq<FormatElement>
    decreases contents.len(),
{
    if contents.len() == 0 {
        Seq::empty()
    } else {
        entry_of(contents[0]) + entries_of(contents.drop_first())
    }
}

/// The contents one after the other, without the entries round them.
pub open spec fn joined(contents: Seq<Seq<FormatElement>>) -> Seq<FormatElement>
    decreases contents.len(),
{
    if contents.len() == 0 {
        Seq::empty()
    } else {
        contents[0] + joined(contents.drop_first())
    }
}

/// Whether all contents are inline.
pub open spec fn contents_inline(contents: Seq<Seq<FormatElement>>) -> bool {
    forall|i: int| 0 <= i < contents.len() ==> all_inline(#[trigger] contents[i])
}

proof fn lemma_other_contents_inline(contents: Seq<Seq<FormatElement>>)
    requires
        contents_inline(contents),
        contents.len() > 0,
    ensures
        all_inline(contents[0]),
        contents_inline(contents.drop_first()),
{
    let others = contents.drop_first();
    assert forall|i: int| 0 <= i < others.len() implies all_inline(#[trigger] others[i]) by {
        assert(all_inline(contents[i + 1]));
    }
}

/// Measuring entries that stay on the line leads from one view to the next.
proof fn lemma_entries_measured(
    options: PrinterOptions,
    view: FitsView,
    contents: Seq<Seq<FormatElement>>,
    rest: Seq<FormatElement>,
) -> (views: Seq<FitsView>)
    requires
        contents_inline(contents),
        view.queue == entries_of(contents) + rest,
        flat_span(options, span_of_view(view), joined(contents)).width
            <= options.print_width.columns,
    ensures
        views.len() == contents.len() + 1,
        views[0] == view,
        views.last() == moved(
            view,
            flat_span(options, span_of_view(view), joined(contents)),
            rest,
        ),
        fits_in_row(options, views),
    decreases contents.len(),
{
    let span = span_of_view(view);
    if contents.len() == 0 {
        assert(entries_of(contents) + rest =~= rest);
        assert(moved(view, span, rest) =~= view);
        seq![view]
    } else {
        let content = contents[0];
        let others = contents.drop_first();
        let next_rest = entries_of(others) + rest;
        let next_span = flat_span(options, span, content);
        lemma_other_contents_inline(contents);
        assert(view.queue =~= entry_of(content) + next_rest);
        lemma_span_concat(options, span, content, joined(others));
        lemma_span_grows(options, span, content);
        lemma_span_grows(options, next_span, joined(others));
        lemma_inline_entry_measured(options, view, content, next_rest);
        let next = moved(view, next_span, next_rest);
        assert(span_of_view(next) == next_span);
        let others_views = lemma_entries_measured(options, next, others, rest);
        let views = seq![view] + others_views;
        assert(views[0] == view && views[1] == next);
        lemma_what_comes_next(view.queue, Tag::StartEntry);
        assert(view.queue[0] == FormatElement::Tag(Tag::StartEntry));
        assert forall|i: int| 0 <= i < views.len() - 1 implies #[trigger] fits_at(
            options,
            views,
            i,
        ) by {
            if i > 0 {
                assert(fits_at(options, others_views, i - 1));
                assert(views[i] == others_views[i - 1] && views[i + 1] == others_views[i]);
            }
        }
        assert(views.last() == others_views.last());
        views
    }
}

/// Room throughout content is room throughout its first part, and throughout the part behind.
pub proof fn lemma_room_in_parts(
    options: PrinterOptions,
    mode: PrintMode,
    indention: Indention,
    row: Row,
    left: Seq<FormatElement>,
    right: Seq<FormatElement>,
)
    requires
        has_room_throughout(options, mode, indention, row, left + right),
    ensures
        has_room_throughout(options, mode, indention, row, left),
        has_room_throughout(
            options,
            mode,
            indention,
            rows(options, mode, indention, row, left),
            right,
        ),
{
    assert forall|i: int| 0 <= i <= left.len() implies has_room(
        rows(options, mode, indention, row, #[trigger] left.take(i)),
    ) by {
        assert((left + right).take(i) =~= left.take(i));
    }
    let behind = rows(options, mode, indention, row, left);
    assert forall|i: int| 0 <= i <= right.len() implies has_room(
        rows(options, mode, indention, behind, #[trigger] right.take(i)),
    ) by {
        assert((left + right).take(left.len() + i) =~= left + right.take(i));
        lemma_rows_concat(options, mode, indention, row, left, right.take(i));
    }
}

/// Entries that are printed one after the other in the same mode are printed like their contents.
proof fn lemma_entries_printed(
    options: PrinterOptions,
    machine: Machine,
    mode: PrintMode,
    contents: Seq<Seq<FormatElement>>,
    rest: Seq<FormatElement>,
) -> (after: Machine)
    requires
        contents_inline(contents),
        machine.queue == entries_of(contents) + rest,
        machine.state.line_suffixes.len() == 0,
        machine.indents.stack.indentions.len() > 0,
        is_counted(machine.state),
        has_room_throughout(
            options,
            mode,
            machine.indents.stack.indentions.last(),
            row_of(machine.state),
            joined(contents),
        ),
    ensures
        print_row(options, machine, mode, contents.len()) == Ok::<Machine, Stop<Machine>>(after),
        row_of(after.state) == rows(
            options,
            mode,
            machine.indents.stack.indentions.last(),
            row_of(machine.state),
            joined(contents),
        ),
        after.queue == rest,
        after.stack == machine.stack,
        after.indents == machine.indents,
        after.state.line_suffixes == machine.state.line_suffixes,
        is_counted(after.state),
    decreases contents.len(),
{
    let indention = machine.indents.stack.indentions.last();
    let row = row_of(machine.state);
    if contents.len() == 0 {
        assert(entries_of(contents) + rest =~= rest);
        machine
    } else {
        let content = contents[0];
        let others = contents.drop_first();
        let next_rest = entries_of(others) + rest;
        lemma_other_contents_inline(contents);
        assert(machine.queue =~= entry_of(content) + next_rest);
        lemma_room_in_parts(options, mode, indention, row, content, joined(others));
        lemma_rows_concat(options, mode, indention, row, content, joined(others));
        let next = lemma_inline_entry_printed(
            options,
            machine,
            PrintElementArgs { mode },
            content,
            next_rest,
        );
        lemma_entries_printed(options, next, mode, others, rest)
    }
}

/// A document that is a fill of texts, spaces and soft line breaks is printed on one line, if all of
/// it is within the print width of the options.
pub proof fn lemma_fill_document(
    options: PrinterOptions,
    contents: Seq<Seq<FormatElement>>,
    indent: u16,
)
    requires
        contents_inline(contents),
        contents.len() % 2 == 1,
        contents.len() <= usize::MAX,
        flat_span(options, first_span(), joined(contents)).width <= options.print_width.columns,
        has_room_throughout(
            options,
            PrintMode::Flat,
            Indention::Level(indent),
            first_row(),
            joined(contents),
        ),
    ensures
        printed_document(
            options,
            initial_state(),
            seq![FormatElement::Tag(Tag::StartFill)] + entries_of(contents) + seq![
                FormatElement::Tag(Tag::EndFill),
            ],
            indent,
        ) matches Ok(printed) && printed.code == rows(
            options,
            PrintMode::Flat,
            Indention::Level(indent),
            first_row(),
            joined(contents),
        ).output,
{
    let opening = FormatElement::Tag(Tag::StartFill);
    let end = seq![FormatElement::Tag(Tag::EndFill)];
    let document = seq![opening] + entries_of(contents) + end;
    let start = starting(initial_state(), document, indent);
    let popped = start.popped();
    assert(document[0] == opening);
    assert(popped.queue =~= entries_of(contents) + end);
    let args = start.stack.last().args;
    let inside = Machine {
        stack: popped.stack.push(StackFrame { kind: StackFrameKind::Tag(TagKind::Fill), args }),
        ..popped
    };
    let view = measuring_flat(inside);
    assert(span_of_view(view) == first_span());
    let views = lemma_entries_measured(options, view, contents, end);
    let row_start = behind_measuring(inside, views.last());
    let after = lemma_entries_printed(options, row_start, PrintMode::Flat, contents, end);
    let pairs = ((contents.len() - 1) / 2) as nat;
    lemma_what_comes_next(end, Tag::StartEntry);
    lemma_what_comes_next(end, Tag::EndFill);
    lemma_fill_that_fits(options, inside, args, views, pairs, after);
    lemma_fill_starts(options, popped);
    lemma_one_after_the_other(options, start, Seq::empty());
    let behind = print_element(options, popped, opening)->Ok_0;
    lemma_one_after_the_other(options, behind, Seq::empty());
}

proof fn lemma_entries_concat(left: Seq<Seq<FormatElement>>, right: Seq<Seq<FormatElement>>)
    ensures
        entries_of(left + right) == entries_of(left) + entries_of(right),
        joined(left + right) == joined(left) + joined(right),
    decreases left.len(),
{
    let all = left + right;
    if left.len() == 0 {
        assert(all =~= right);
        assert(entries_of(left) + entries_of(right) =~= entries_of(right));
        assert(joined(left) + joined(right) =~= joined(right));
    } else {
        assert(all[0] == left[0]);
        assert(all.drop_first() =~= left.drop_first() + right);
        lemma_entries_concat(left.drop_first(), right);
        assert(entries_of(all) =~= entries_of(left) + entries_of(right));
        assert(joined(all) =~= joined(left) + joined(right));
    }
}

proof fn lemma_single_content(content: Seq<FormatElement>)
    ensures
        entries_of(seq![content]) == entry_of(content),
        joined(seq![content]) == content,
{
    reveal_with_fuel(entries_of, 2);
    reveal_with_fuel(joined, 2);
    assert(entries_of(seq![content]) =~= entry_of(content));
    assert(joined(seq![content]) =~= content);
}

/// A line of a fill holds exactly the items and separators of texts, spaces and soft line breaks that
/// are within the print width: where a separator is, but the item behind it is not, all items and
/// separators before that separator are printed on one line, and the separator is printed with its
/// line breaks.
pub proof fn lemma_fill_breaks_line(
    options: PrinterOptions,
    machine: Machine,
    args: PrintElementArgs,
    items: Seq<Seq<FormatElement>>,
    separator: Seq<FormatElement>,
    next_item: Seq<FormatElement>,
    rest: Seq<FormatElement>,
) -> (after: Machine)
    requires
        contents_inline(items.push(separator).push(next_item)),
        items.len() % 2 == 1,
        items.len() <= usize::MAX,
        machine.queue == entries_of(items.push(separator)) + (entry_of(next_item) + rest),
        flat_span(
            options,
            span_of(machine.state),
            joined(items.push(separator)),
        ).width <= options.print_width.columns,
        options.print_width.columns < flat_span(
            options,
            span_of(machine.state),
            joined(items.push(separator).push(next_item)),
        ).width <= usize::MAX,
        machine.state.line_suffixes.len() == 0,
        machine.indents.stack.indentions.len() > 0,
        is_counted(machine.state),
        has_room_throughout(
            options,
            PrintMode::Flat,
            machine.indents.stack.indentions.last(),
            row_of(machine.state),
            joined(items),
        ),
        has_room_throughout(
            options,
            PrintMode::Expanded,
            machine.indents.stack.indentions.last(),
            rows(
                options,
                PrintMode::Flat,
                machine.indents.stack.indentions.last(),
                row_of(machine.state),
                joined(items),
            ),
            separator,
        ),
    ensures
        print_fill_line(options, machine, args) == Ok::<Machine, Stop<Machine>>(after),
        row_of(after.state) == rows(
            options,
            PrintMode::Expanded,
            machine.indents.stack.indentions.last(),
            rows(
                options,
                PrintMode::Flat,
                machine.indents.stack.indentions.last(),
                row_of(machine.state),
                joined(items),
            ),
            separator,
        ),
        after.queue == entry_of(next_item) + rest,
        after.stack == machine.stack,
        after.indents == machine.indents,
        after.state.line_suffixes == machine.state.line_suffixes,
{
    let indention = machine.indents.stack.indentions.last();
    let front = items.push(separator);
    let all = front.push(next_item);
    let tail = entry_of(next_item) + rest;
    let pairs = ((items.len() - 1) / 2) as nat;
    let others = items.drop_last();
    let item = items.last();
    let view = measuring_flat(machine);
    assert(span_of_view(view) == span_of(machine.state));
    assert(all_inline(separator) && all_inline(next_item) && contents_inline(front)
        && contents_inline(others) && all_inline(item)) by {
        assert(all[front.len() as int] == next_item);
        assert(all[items.len() as int] == separator);
        assert(all[items.len() - 1] == item);
        assert forall|i: int| 0 <= i < front.len() implies all_inline(#[trigger] front[i]) by {
            assert(all[i] == front[i]);
        }
        assert forall|i: int| 0 <= i < others.len() implies all_inline(#[trigger] others[i]) by {
            assert(all[i] == others[i]);
        }
    }
    let views = lemma_entries_measured(options, view, front, tail);
    let last = views.last();
    assert(all =~= front + seq![next_item]);
    lemma_entries_concat(front, seq![next_item]);
    lemma_single_content(next_item);
    lemma_span_concat(options, span_of(machine.state), joined(front), next_item);
    assert(span_of_view(last) == flat_span(options, span_of(machine.state), joined(front)));
    lemma_inline_entry_measured(options, last, next_item, rest);
    let measured = fits_entry(options, last, PrintMode::Flat)->Ok_0.1;
    lemma_what_comes_next(last.queue, Tag::StartEntry);
    assert(last.queue[0] == FormatElement::Tag(Tag::StartEntry));
    lemma_break_before_item(options, machine, args, views, pairs, measured);
    let start = behind_measuring(machine, measured);
    assert(front =~= items + seq![separator]);
    assert(items =~= others + seq![item]);
    lemma_entries_concat(items, seq![separator]);
    lemma_entries_concat(others, seq![item]);
    lemma_single_content(separator);
    lemma_single_content(item);
    let behind_item = entry_of(separator) + tail;
    assert(start.queue =~= entries_of(others) + (entry_of(item) + behind_item));
    lemma_room_in_parts(
        options,
        PrintMode::Flat,
        indention,
        row_of(machine.state),
        joined(others),
        item,
    );
    lemma_rows_concat(
        options,
        PrintMode::Flat,
        indention,
        row_of(machine.state),
        joined(others),
        item,
    );
    let row = lemma_entries_printed(
        options,
        start,
        PrintMode::Flat,
        others,
        entry_of(item) + behind_item,
    );
    let printed = lemma_inline_entry_printed(
        options,
        row,
        PrintElementArgs { mode: PrintMode::Flat },
        item,
        behind_item,
    );
    lemma_what_comes_next(behind_item, Tag::StartEntry);
    assert(behind_item[0] == FormatElement::Tag(Tag::StartEntry));
    let inside = printed.entering(TagKind::Fill, args.in_mode(PrintMode::Flat));
    let separated = lemma_inline_entry_printed(
        options,
        inside,
        PrintElementArgs { mode: PrintMode::Expanded },
        separator,
        tail,
    );
    assert(inside.stack.drop_last() =~= printed.stack);
    Machine { stack: machine.stack, ..separated }
}

/// Measuring a variant answers whether it is within the print width.
proof fn lemma_inline_variant_measured(
    options: PrinterOptions,
    machine: Machine,
    content: Seq<FormatElement>,
)
    requires
        all_inline(content),
        machine.queue.len() == 0,
        machine.stack.len() > 0,
        machine.state.line_width <= options.print_width.columns,
        flat_span(options, span_of(machine.state), content).width <= usize::MAX,
    ensures
        is_measured(
            options,
            machine,
            entry_of(content),
            machine.state.group_modes,
            flat_span(options, span_of(machine.state), content).width
                <= options.print_width.columns,
            machine.state.group_modes,
        ),
{
    let none: Seq<FormatElement> = Seq::empty();
    let view = measuring_variant(machine, machine.state.group_modes, entry_of(content));
    assert(view.queue =~= content + seq![FormatElement::Tag(Tag::EndEntry)] + none);
    assert(span_of_view(view) == span_of(machine.state));
    lemma_inline_part_fits(options, view, content, Tag::EndEntry, none);
}

/// A document that is a choice between variants of texts, spaces and soft line breaks is printed like
/// the first variant that is within the print width of the options, on one line. If none but the last
/// is left, that one is printed, with a line break for every soft line break.
pub proof fn lemma_best_fitting_document(
    options: PrinterOptions,
    best_fitting: BestFittingElement,
    contents: Seq<Seq<FormatElement>>,
    chosen: int,
    indent: u16,
)
    requires
        contents_inline(contents),
        contents.len() == best_fitting.layouts().len(),
        forall|i: int|
            0 <= i < contents.len() ==> (#[trigger] best_fitting.layouts()[i])@ == entry_of(
                contents[i],
            ),
        0 <= chosen < contents.len(),
        forall|i: int|
            0 <= i < chosen ==> options.print_width.columns < flat_span(
                options,
                first_span(),
                #[trigger] contents[i],
            ).width <= usize::MAX,
        chosen < contents.len() - 1 ==> flat_span(options, first_span(), contents[chosen]).width
            <= options.print_width.columns,
        has_room_throughout(
            options,
            if chosen < contents.len() - 1 {
                PrintMode::Flat
            } else {
                PrintMode::Expanded
            },
            Indention::Level(indent),
            first_row(),
            contents[chosen],
        ),
    ensures
        printed_document(
            options,
            initial_state(),
            seq![FormatElement::BestFitting(best_fitting)],
            indent,
        ) matches Ok(printed) && printed.code == rows(
            options,
            if chosen < contents.len() - 1 {
                PrintMode::Flat
            } else {
                PrintMode::Expanded
            },
            Indention::Level(indent),
            first_row(),
            contents[chosen],
        ).output,
{
    let element = FormatElement::BestFitting(best_fitting);
    let none: Seq<FormatElement> = Seq::empty();
    let start = starting(initial_state(), seq![element], indent);
    let popped = start.popped();
    assert(seq![element].drop_first() =~= none);
    assert(span_of(popped.state) == first_span());
    let modes = Seq::new((chosen + 1) as nat, |i: int| popped.state.group_modes);
    assert(none_fits(options, popped, best_fitting, modes)) by {
        assert forall|i: int| 0 <= i < modes.len() - 1 implies is_measured(
            options,
            popped,
            (#[trigger] best_fitting.layouts()[i])@,
            modes[i],
            false,
            modes[i + 1],
        ) by {
            assert(all_inline(contents[i]));
            lemma_inline_variant_measured(options, popped, contents[i]);
        }
    }
    let content = contents[chosen];
    let variant = best_fitting.layouts()[chosen]@;
    let mode = if chosen < contents.len() - 1 {
        PrintMode::Flat
    } else {
        PrintMode::Expanded
    };
    assert(all_inline(contents[chosen]));
    if chosen < contents.len() - 1 {
        lemma_inline_variant_measured(options, popped, content);
        lemma_first_variant_that_fits(
            options,
            popped,
            best_fitting,
            modes,
            popped.state.group_modes,
        );
    } else {
        lemma_last_variant(options, popped, best_fitting, modes);
    }
    let entering = about_to_print(popped, popped.state.group_modes, variant);
    assert(entering.queue =~= entry_of(content) + none);
    let after = lemma_inline_entry_printed(
        options,
        entering,
        PrintElementArgs { mode },
        content,
        none,
    );
    lemma_one_after_the_other(options, start, Seq::empty());
    lemma_one_after_the_other(options, after, Seq::empty());
}

} // verus!
