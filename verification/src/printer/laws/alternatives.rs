//! How content that depends on the mode of its group is laid out.

use crate::format_element::{total_size, FormatElement};
use crate::options::PrinterOptions;
use crate::printer::call_stack::{PrintElementArgs, StackFrame, StackFrameKind};
use crate::printer::fits::{fits_content, fits_element, Fits, FitsEnd, FitsView};
use crate::printer::indention::Indention;
use crate::printer::laws::basics::lemma_group_measured_first;
use crate::printer::laws::conditions::{
    inside_of, lemma_conditional_content, lemma_conditional_content_measured, measuring_inside_of,
};
use crate::printer::laws::entries::lemma_room_in_parts;
use crate::printer::laws::nesting::closes;
use crate::printer::laws::rows::{
    all_inline, first_row, first_span, flat_span, has_room_throughout, is_counted, is_inline,
    lemma_inline_exceeds, lemma_inline_measured, lemma_inline_printed, lemma_rows_concat,
    lemma_span_concat, lemma_span_grows, mode_for, moved, row_of, rows, span_of_view,
};
use crate::printer::laws::steps::{
    lemma_measured_one_after_the_other, lemma_one_after_the_other, lemma_part_ends,
};
use crate::printer::machine::Machine;
use crate::printer::outcome::{print_element, print_queue, printed_document, starting};
use crate::printer::queue::lemma_pop_size;
use crate::printer::state::{initial_state, Stop};
use crate::tag::{Condition, Group, GroupMode, PrintMode, Tag, TagKind};
use vstd::prelude::*;

verus! {

/// Content that is only printed if the group around it is printed in the given mode.
pub open spec fn alternative(mode: PrintMode, content: Seq<FormatElement>) -> Seq<FormatElement> {
    seq![FormatElement::Tag(Tag::StartConditionalContent(Condition { mode, group_id: None }))]
        + content + seq![FormatElement::Tag(Tag::EndConditionalContent)]
}

/// Inline content ends where its part does.
proof fn lemma_inline_closes(content: Seq<FormatElement>)
    requires
        all_inline(content),
    ensures
        closes(
            content + seq![FormatElement::Tag(Tag::EndConditionalContent)],
            seq![TagKind::ConditionalContent],
        ),
    decreases content.len(),
{
    let end = seq![FormatElement::Tag(Tag::EndConditionalContent)];
    let part = content + end;
    let open = seq![TagKind::ConditionalContent];
    assert(end.drop_first() =~= Seq::empty());
    if content.len() == 0 {
        assert(part =~= end);
        assert(open.drop_last() =~= Seq::empty());
        assert(closes(end.drop_first(), open.drop_last()));
    } else {
        let others = content.drop_first();
        assert(is_inline(content[0]));
        assert(part[0] == content[0]);
        assert(part.drop_first() =~= others + end);
        assert forall|i: int| 0 <= i < others.len() implies #[trigger] is_inline(others[i]) by {
            assert(is_inline(content[i + 1]));
        }
        lemma_inline_closes(others);
    }
}

/// Content without its start is smaller.
proof fn lemma_alternative_size(mode: PrintMode, content: Seq<FormatElement>)
    ensures
        total_size(content + seq![FormatElement::Tag(Tag::EndConditionalContent)]) < total_size(
            alternative(mode, content),
        ),
{
    let all = alternative(mode, content);
    assert(all.drop_first() =~= content + seq![
        FormatElement::Tag(Tag::EndConditionalContent),
    ]);
    lemma_pop_size(all);
}

/// In flat mode content for expanded mode is not measured, and content for flat mode is measured as if
/// it stood there without a condition.
proof fn lemma_alternative_measured(
    options: PrinterOptions,
    view: FitsView,
    mode: PrintMode,
    content: Seq<FormatElement>,
    rest: Seq<FormatElement>,
)
    requires
        all_inline(content),
        view.queue == alternative(mode, content) + rest,
        view.stack.len() > 0,
        view.stack.last().args.mode == PrintMode::Flat,
        total_size(alternative(mode, content)) <= usize::MAX,
        view.line_width <= options.print_width.columns,
        flat_span(options, span_of_view(view), content).width <= usize::MAX,
    ensures
        ({
            let span = flat_span(options, span_of_view(view), content);
            let result = fits_content(options, view, FitsEnd::Document);
            if mode == PrintMode::Expanded {
                result == fits_content(
                    options,
                    (FitsView { queue: rest, ..view }),
                    FitsEnd::Document,
                )
            } else if span.width <= options.print_width.columns {
                result == fits_content(options, moved(view, span, rest), FitsEnd::Document)
            } else {
                result matches Ok((fits, after, _)) && !fits && after.group_modes
                    == view.group_modes
            }
        }),
{
    let end = FormatElement::Tag(Tag::EndConditionalContent);
    let part = content + seq![end];
    let tail = seq![end] + rest;
    let condition = Condition { mode, group_id: None };
    let popped = FitsView { queue: view.queue.drop_first(), ..view };
    assert(view.queue[0] == FormatElement::Tag(Tag::StartConditionalContent(condition)));
    assert(view.queue.drop_first() =~= part + rest);
    assert(part + rest =~= content + tail);
    lemma_inline_closes(content);
    lemma_alternative_size(mode, content);
    lemma_conditional_content_measured(options, popped, condition, PrintMode::Flat, part, rest);
    lemma_measured_one_after_the_other(options, view);
    if mode == PrintMode::Flat {
        let inside = measuring_inside_of(popped, TagKind::ConditionalContent);
        let span = flat_span(options, span_of_view(view), content);
        assert(span_of_view(inside) == span_of_view(view));
        if span.width <= options.print_width.columns {
            lemma_inline_measured(options, inside, content, tail, FitsEnd::Document);
            let behind = moved(inside, span, tail);
            lemma_measured_one_after_the_other(options, behind);
            assert(tail.drop_first() =~= rest);
            let last = FitsView { queue: rest, ..behind };
            assert(inside.stack.drop_last() =~= view.stack);
            assert(fits_element(options, last, end) == Ok::<_, Stop<FitsView>>(
                (Fits::Maybe, moved(view, span, rest)),
            ));
        } else {
            lemma_inline_exceeds(options, inside, content, tail, FitsEnd::Document);
        }
    }
}

/// Content for the mode that the printer is in is printed as if it stood there without a condition,
/// and content for the other mode is not printed.
proof fn lemma_alternative_printed(
    options: PrinterOptions,
    machine: Machine,
    mode: PrintMode,
    content: Seq<FormatElement>,
    rest: Seq<FormatElement>,
) -> (after: Machine)
    requires
        all_inline(content),
        machine.queue == alternative(mode, content) + rest,
        rest.len() > 0,
        total_size(alternative(mode, content)) <= usize::MAX,
        machine.stack.len() > 0,
        machine.state.line_suffixes.len() == 0,
        machine.indents.stack.indentions.len() > 0,
        is_counted(machine.state),
        mode == machine.stack.last().args.mode ==> has_room_throughout(
            options,
            mode,
            machine.indents.stack.indentions.last(),
            row_of(machine.state),
            content,
        ),
    ensures
        print_queue(options, machine) == print_queue(options, after),
        row_of(after.state) == (if mode == machine.stack.last().args.mode {
            rows(
                options,
                mode,
                machine.indents.stack.indentions.last(),
                row_of(machine.state),
                content,
            )
        } else {
            row_of(machine.state)
        }),
        after.queue == rest,
        after.stack == machine.stack,
        after.indents == machine.indents,
        after.state.line_suffixes == machine.state.line_suffixes,
        is_counted(after.state),
{
    let end = FormatElement::Tag(Tag::EndConditionalContent);
    let part = content + seq![end];
    let tail = seq![end] + rest;
    let condition = Condition { mode, group_id: None };
    let own = machine.stack.last().args.mode;
    let popped = Machine { queue: machine.queue.drop_first(), ..machine };
    assert(machine.queue[0] == FormatElement::Tag(Tag::StartConditionalContent(condition)));
    assert(popped.queue =~= part + rest);
    assert(part + rest =~= content + tail);
    lemma_inline_closes(content);
    lemma_alternative_size(mode, content);
    lemma_conditional_content(options, popped, condition, own, part, rest);
    lemma_one_after_the_other(options, machine, Seq::empty());
    if mode == own {
        let inside = inside_of(popped, TagKind::ConditionalContent);
        assert(inside.queue.len() > 0);
        let behind = lemma_inline_printed(options, inside, content, tail);
        let last = Machine { queue: behind.queue.drop_first(), ..behind };
        assert(last.queue =~= rest);
        lemma_part_ends(options, last, Tag::EndConditionalContent);
        lemma_one_after_the_other(options, behind, Seq::empty());
        assert(inside.stack.drop_last() =~= machine.stack);
        Machine { stack: machine.stack, ..last }
    } else {
        Machine { queue: rest, ..popped }
    }
}

/// A group of texts, spaces and soft line breaks, with content behind them for the case that it breaks
/// and content for the case that it fits on the line.
pub open spec fn group_with_alternatives(
    group: Group,
    content: Seq<FormatElement>,
    broken: Seq<FormatElement>,
    flat: Seq<FormatElement>,
) -> Seq<FormatElement> {
    seq![FormatElement::Tag(Tag::StartGroup(group))] + (content + (alternative(
        PrintMode::Expanded,
        broken,
    ) + (alternative(PrintMode::Flat, flat) + seq![FormatElement::Tag(Tag::EndGroup)])))
}

/// Measuring a group with alternatives answers whether it is within the print width with its content
/// for flat mode.
proof fn lemma_alternatives_fit(
    options: PrinterOptions,
    view: FitsView,
    content: Seq<FormatElement>,
    broken: Seq<FormatElement>,
    flat: Seq<FormatElement>,
)
    requires
        all_inline(content) && all_inline(broken) && all_inline(flat),
        total_size(alternative(PrintMode::Expanded, broken)) <= usize::MAX,
        total_size(alternative(PrintMode::Flat, flat)) <= usize::MAX,
        view.queue == content + (alternative(PrintMode::Expanded, broken) + (alternative(
            PrintMode::Flat,
            flat,
        ) + seq![FormatElement::Tag(Tag::EndGroup)])),
        view.stack.len() > 0,
        view.stack.last().kind == StackFrameKind::Tag(TagKind::Group),
        view.stack.last().args.mode == PrintMode::Flat,
        view.line_width <= options.print_width.columns,
        flat_span(options, span_of_view(view), content + flat).width <= usize::MAX,
        flat_span(options, span_of_view(view), content + broken).width <= usize::MAX,
    ensures
        fits_content(options, view, FitsEnd::Document) matches Ok((fits, after, _)) && fits == (
        flat_span(options, span_of_view(view), content + flat).width
            <= options.print_width.columns) && after.group_modes == view.group_modes,
{
    let end = seq![FormatElement::Tag(Tag::EndGroup)];
    let behind_broken = alternative(PrintMode::Flat, flat) + end;
    let behind_content = alternative(PrintMode::Expanded, broken) + behind_broken;
    let span = flat_span(options, span_of_view(view), content);
    lemma_span_concat(options, span_of_view(view), content, flat);
    lemma_span_concat(options, span_of_view(view), content, broken);
    lemma_span_grows(options, span, flat);
    if span.width <= options.print_width.columns {
        lemma_inline_measured(options, view, content, behind_content, FitsEnd::Document);
        let first = moved(view, span, behind_content);
        assert(span_of_view(first) == span);
        lemma_alternative_measured(options, first, PrintMode::Expanded, broken, behind_broken);
        let second = FitsView { queue: behind_broken, ..first };
        assert(span_of_view(second) == span);
        lemma_alternative_measured(options, second, PrintMode::Flat, flat, end);
        let last = moved(second, flat_span(options, span, flat), end);
        lemma_measured_one_after_the_other(options, last);
        assert(end.drop_first() =~= Seq::empty());
        let outside = FitsView {
            queue: Seq::empty(),
            stack: view.stack.drop_last(),
            ..last
        };
        assert(fits_element(
            options,
            (FitsView { queue: Seq::empty(), ..last }),
            FormatElement::Tag(Tag::EndGroup),
        ) == Ok::<_, Stop<FitsView>>((Fits::Maybe, outside)));
        lemma_measured_one_after_the_other(options, outside);
    } else {
        lemma_inline_exceeds(options, view, content, behind_content, FitsEnd::Document);
    }
}

/// A group with alternatives is printed on one line with its content for flat mode, if that is within
/// the print width of the options. Otherwise it is printed with a line break for every soft line break
/// and its content for expanded mode. What was not chosen leaves no trace.
pub proof fn lemma_group_with_alternatives(
    options: PrinterOptions,
    group: Group,
    content: Seq<FormatElement>,
    broken: Seq<FormatElement>,
    flat: Seq<FormatElement>,
    indent: u16,
)
    requires
        all_inline(content) && all_inline(broken) && all_inline(flat),
        group.mode == GroupMode::Flat,
        total_size(alternative(PrintMode::Expanded, broken)) <= usize::MAX,
        total_size(alternative(PrintMode::Flat, flat)) <= usize::MAX,
        flat_span(options, first_span(), content + flat).width <= usize::MAX,
        flat_span(options, first_span(), content + broken).width <= usize::MAX,
        ({
            let mode = mode_for(
                options,
                flat_span(options, first_span(), content + flat).width,
            );
            has_room_throughout(
                options,
                mode,
                Indention::Level(indent),
                first_row(),
                content + (if mode == PrintMode::Flat {
                    flat
                } else {
                    broken
                }),
            )
        }),
    ensures
        ({
            let mode = mode_for(
                options,
                flat_span(options, first_span(), content + flat).width,
            );
            printed_document(
                options,
                initial_state(),
                group_with_alternatives(group, content, broken, flat),
                indent,
            ) matches Ok(printed) && printed.code == rows(
                options,
                mode,
                Indention::Level(indent),
                first_row(),
                content + (if mode == PrintMode::Flat {
                    flat
                } else {
                    broken
                }),
            ).output
        }),
{
    let mode = mode_for(options, flat_span(options, first_span(), content + flat).width);
    let chosen = if mode == PrintMode::Flat {
        flat
    } else {
        broken
    };
    let indention = Indention::Level(indent);
    let opening = FormatElement::Tag(Tag::StartGroup(group));
    let end = seq![FormatElement::Tag(Tag::EndGroup)];
    let behind_broken = alternative(PrintMode::Flat, flat) + end;
    let behind_content = alternative(PrintMode::Expanded, broken) + behind_broken;
    let document = group_with_alternatives(group, content, broken, flat);
    let start = starting(initial_state(), document, indent);
    let popped = start.popped();
    assert(document[0] == opening);
    assert(popped.queue =~= content + behind_content);
    let view = FitsView {
        pending_indent: popped.state.pending_indent,
        pending_space: popped.state.pending_space,
        has_line_suffix: popped.state.line_suffixes.len() > 0,
        line_width: popped.state.line_width,
        queue: popped.queue,
        stack: popped.stack.push(
            StackFrame {
                kind: StackFrameKind::Tag(TagKind::Group),
                args: PrintElementArgs { mode: PrintMode::Flat },
            },
        ),
        indents: popped.indents.stack,
        group_modes: match group.id {
            Some(id) => popped.state.group_modes.insert(id, PrintMode::Flat),
            None => popped.state.group_modes,
        },
        must_be_flat: false,
    };
    assert(span_of_view(view) == first_span());
    lemma_alternatives_fit(options, view, content, broken, flat);
    lemma_group_measured_first(options, popped, group);
    lemma_one_after_the_other(options, start, Seq::empty());
    let inside = print_element(options, popped, opening)->Ok_0;
    assert(inside.queue.len() > 0);
    assert(row_of(inside.state) == first_row());
    lemma_room_in_parts(options, mode, indention, first_row(), content, chosen);
    lemma_rows_concat(options, mode, indention, first_row(), content, chosen);
    let first = lemma_inline_printed(options, inside, content, behind_content);
    let second = lemma_alternative_printed(
        options,
        first,
        PrintMode::Expanded,
        broken,
        behind_broken,
    );
    let third = lemma_alternative_printed(options, second, PrintMode::Flat, flat, end);
    let last = Machine { queue: third.queue.drop_first(), ..third };
    lemma_part_ends(options, last, Tag::EndGroup);
    lemma_one_after_the_other(options, third, Seq::empty());
    let after = print_element(options, last, end[0])->Ok_0;
    assert(after.queue.len() == 0);
    lemma_one_after_the_other(options, after, Seq::empty());
}

} // verus!
