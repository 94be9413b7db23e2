//! The output only grows, its line breaks are line endings of the options, and the source map is in
//! the order of the output.

use crate::format_element::{lemma_element_counts, BestFittingElement, FormatElement, LineMode};
use crate::options::{LineEnding, PrinterOptions};
use crate::printed::SourceMarker;
use crate::printer::call_stack::{top_args, PrintElementArgs};
use crate::printer::indention::Indention;
use crate::printer::machine::{after_break, print_plain, Machine, Outcome};
use crate::printer::outcome::{
    advanced, at_end, best_variant, chosen_variant, depth_behind, fill_layout, item_mode,
    lemma_best_variant, lemma_chosen_variant, lemma_next_progress, lemma_popped_remaining,
    not_behind, print_element, print_entry, print_entry_rest, print_fill, print_fill_line,
    print_flat_pairs, print_last_pair, print_next, print_queue, printed_document, separator_mode,
    starting, variant_fits, FillPairLayout,
};
use crate::printer::state::{initial_state, StateView, Stop};
use crate::printer::text::{
    after_char, after_indent, after_marked, after_marker, after_repeated, after_source, after_space,
    after_str, after_text, indent_char,
};
use crate::tag::{PrintMode, Tag, TagKind};
use crate::text_size::{byte_len, text_len, TextSize};
use vstd::prelude::*;

verus! {

/// The characters with every line break as the line ending of the options.
pub open spec fn converted(options: PrinterOptions, chars: Seq<char>) -> Seq<char>
    decreases chars.len(),
{
    if chars.len() == 0 {
        Seq::empty()
    } else {
        converted(options, chars.drop_last()) + (if chars.last() == '\n' {
            options.line_ending.chars()
        } else {
            seq![chars.last()]
        })
    }
}

/// Whether characters, with their line breaks converted, were added to the output.
pub open spec fn grown(options: PrinterOptions, before: Seq<char>, after: Seq<char>) -> bool {
    exists|chars: Seq<char>| after == before + #[trigger] converted(options, chars)
}

/// Whether the source map is in the order of the output, within the output and without repetitions.
pub open spec fn mapped_in_order(state: StateView) -> bool {
    let markers = state.source_markers;
    &&& forall|i: int, j: int|
        0 <= i < j < markers.len() ==> (#[trigger] markers[i]).dest.raw <= (
        #[trigger] markers[j]).dest.raw
    &&& forall|i: int, j: int|
        0 <= i && j == i + 1 && j < markers.len() ==> #[trigger] markers[i]
            != #[trigger] markers[j]
    &&& forall|i: int|
        0 <= i < markers.len() ==> (#[trigger] markers[i]).dest.raw <= byte_len(state.buffer)
}

/// Whether the output of one state goes on from that of another.
pub open spec fn output_follows(
    options: PrinterOptions,
    before: StateView,
    after: StateView,
) -> bool {
    &&& grown(options, before.buffer, after.buffer)
    &&& before.source_markers.is_prefix_of(after.source_markers)
    &&& before.verbatim_markers.is_prefix_of(after.verbatim_markers)
    &&& mapped_in_order(before) ==> mapped_in_order(after)
}

/// Converting goes character by character.
pub proof fn lemma_converted_concat(options: PrinterOptions, left: Seq<char>, right: Seq<char>)
    ensures
        converted(options, left + right) == converted(options, left) + converted(options, right),
    decreases right.len(),
{
    if right.len() == 0 {
        assert(left + right =~= left);
        assert(converted(options, left) + converted(options, right) =~= converted(options, left));
    } else {
        assert((left + right).drop_last() =~= left + right.drop_last());
        lemma_converted_concat(options, left, right.drop_last());
        assert(converted(options, left + right) =~= converted(options, left) + converted(
            options,
            right,
        ));
    }
}

/// The lengths of two texts add up.
pub proof fn lemma_byte_len_concat(left: Seq<char>, right: Seq<char>)
    ensures
        byte_len(left + right) == byte_len(left) + byte_len(right),
    decreases left.len(),
{
    if left.len() == 0 {
        assert(left + right =~= right);
    } else {
        assert((left + right).drop_first() =~= left.drop_first() + right);
        lemma_byte_len_concat(left.drop_first(), right);
    }
}

/// The output follows itself.
proof fn lemma_same_output(options: PrinterOptions, before: StateView, after: StateView)
    requires
        after.buffer == before.buffer,
        after.source_markers == before.source_markers,
        after.verbatim_markers == before.verbatim_markers,
    ensures
        output_follows(options, before, after),
{
    assert(after.buffer =~= before.buffer + converted(options, Seq::empty()));
}

/// What follows what follows, follows.
proof fn lemma_follows_further(
    options: PrinterOptions,
    first: StateView,
    second: StateView,
    third: StateView,
)
    requires
        output_follows(options, first, second),
        output_follows(options, second, third),
    ensures
        output_follows(options, first, third),
{
    let one = choose|chars: Seq<char>|
        second.buffer == first.buffer + #[trigger] converted(options, chars);
    let two = choose|chars: Seq<char>|
        third.buffer == second.buffer + #[trigger] converted(options, chars);
    lemma_converted_concat(options, one, two);
    assert(third.buffer =~= first.buffer + converted(options, one + two));
    assert(first.source_markers =~= third.source_markers.subrange(
        0,
        first.source_markers.len() as int,
    ));
    assert(first.verbatim_markers =~= third.verbatim_markers.subrange(
        0,
        first.verbatim_markers.len() as int,
    ));
}

/// Adding characters to the output keeps the source map in order.
proof fn lemma_grown_follows(options: PrinterOptions, before: StateView, after: StateView)
    requires
        grown(options, before.buffer, after.buffer),
        after.source_markers == before.source_markers,
        after.verbatim_markers == before.verbatim_markers,
    ensures
        output_follows(options, before, after),
{
    let chars = choose|chars: Seq<char>|
        after.buffer == before.buffer + #[trigger] converted(options, chars);
    lemma_byte_len_concat(before.buffer, converted(options, chars));
}

proof fn lemma_char_follows(options: PrinterOptions, state: StateView, character: char)
    ensures
        after_char(options, state, character) matches Ok(after) ==> output_follows(
            options,
            state,
            after,
        ),
{
    if let Ok(after) = after_char(options, state, character) {
        let chars = seq![character];
        assert(chars.drop_last() =~= Seq::empty());
        assert(converted(options, chars.drop_last()) =~= Seq::empty());
        assert(after.buffer =~= state.buffer + converted(options, chars));
        lemma_grown_follows(options, state, after);
    }
}

proof fn lemma_str_follows(options: PrinterOptions, state: StateView, content: Seq<char>)
    ensures
        after_str(options, state, content) matches Ok(after) ==> output_follows(
            options,
            state,
            after,
        ),
    decreases content.len(),
{
    if content.len() == 0 {
        lemma_same_output(options, state, state);
    } else {
        lemma_str_follows(options, state, content.drop_last());
        if let Ok(printed) = after_str(options, state, content.drop_last()) {
            lemma_char_follows(options, printed, content.last());
            if let Ok(next) = after_char(options, printed, content.last()) {
                let after = StateView { has_empty_line: false, ..next };
                lemma_same_output(options, next, after);
                lemma_follows_further(options, printed, next, after);
                lemma_follows_further(options, state, printed, after);
            }
        }
    }
}

proof fn lemma_repeated_follows(
    options: PrinterOptions,
    state: StateView,
    character: char,
    count: nat,
)
    ensures
        after_repeated(options, state, character, count) matches Ok(after) ==> output_follows(
            options,
            state,
            after,
        ),
    decreases count,
{
    if count == 0 {
        lemma_same_output(options, state, state);
    } else {
        lemma_repeated_follows(options, state, character, (count - 1) as nat);
        if let Ok(printed) = after_repeated(options, state, character, (count - 1) as nat) {
            lemma_char_follows(options, printed, character);
            if let Ok(after) = after_char(options, printed, character) {
                lemma_follows_further(options, state, printed, after);
            }
        }
    }
}

proof fn lemma_marker_follows(options: PrinterOptions, state: StateView)
    ensures
        after_marker(state) matches Ok(after) ==> output_follows(options, state, after),
{
    if let Ok(after) = after_marker(state) {
        assert(after.buffer =~= state.buffer + converted(options, Seq::empty()));
        assert(state.source_markers =~= after.source_markers.subrange(
            0,
            state.source_markers.len() as int,
        ));
    }
}

proof fn lemma_indent_follows(options: PrinterOptions, state: StateView)
    ensures
        after_indent(options, state) matches Ok(after) ==> output_follows(options, state, after),
{
    let start = StateView { pending_indent: Indention::Level(0), ..state };
    let (character, per_level) = indent_char(options);
    let count = state.pending_indent.levels() as nat * per_level;
    lemma_same_output(options, state, start);
    lemma_repeated_follows(options, start, character, count);
    if let Ok(indented) = after_repeated(options, start, character, count) {
        lemma_follows_further(options, state, start, indented);
        let spaces = state.pending_indent.spaces() as nat;
        lemma_repeated_follows(options, indented, ' ', spaces);
        if let Ok(after) = after_repeated(options, indented, ' ', spaces) {
            lemma_follows_further(options, state, indented, after);
        }
    }
}

proof fn lemma_space_follows(options: PrinterOptions, state: StateView)
    ensures
        after_space(options, state) matches Ok(after) ==> output_follows(options, state, after),
{
    lemma_same_output(options, state, state);
    lemma_str_follows(options, state, seq![' ']);
    if let Ok(printed) = after_str(options, state, seq![' ']) {
        let after = StateView { pending_space: false, ..printed };
        lemma_same_output(options, printed, after);
        lemma_follows_further(options, state, printed, after);
    }
}

proof fn lemma_marked_follows(
    options: PrinterOptions,
    state: StateView,
    text: Seq<char>,
    source_position: Option<TextSize>,
)
    ensures
        after_marked(options, state, text, source_position) matches Ok(after) ==> output_follows(
            options,
            state,
            after,
        ),
{
    let start = match source_position {
        Some(position) => StateView { source_position: position, ..state },
        None => state,
    };
    lemma_same_output(options, state, start);
    lemma_marker_follows(options, start);
    if let Ok(marked) = after_marker(start) {
        lemma_follows_further(options, state, start, marked);
        lemma_str_follows(options, marked, text);
        if let Ok(printed) = after_str(options, marked, text) {
            lemma_follows_further(options, state, marked, printed);
            if let Ok(moved) = after_source(printed, text, source_position) {
                lemma_same_output(options, printed, moved);
                lemma_follows_further(options, state, printed, moved);
                lemma_marker_follows(options, moved);
                if let Ok(after) = after_marker(moved) {
                    lemma_follows_further(options, state, moved, after);
                }
            }
        }
    }
}

proof fn lemma_text_follows(
    options: PrinterOptions,
    state: StateView,
    text: Seq<char>,
    source_position: Option<TextSize>,
)
    ensures
        after_text(options, state, text, source_position) matches Ok(after) ==> output_follows(
            options,
            state,
            after,
        ),
{
    let indented = if state.pending_indent == Indention::Level(0) {
        Ok(state)
    } else {
        after_indent(options, state)
    };
    lemma_same_output(options, state, state);
    lemma_indent_follows(options, state);
    if let Ok(start) = indented {
        lemma_space_follows(options, start);
        if let Ok(spaced) = after_space(options, start) {
            lemma_follows_further(options, state, start, spaced);
            lemma_marked_follows(options, spaced, text, source_position);
            if let Ok(after) = after_marked(options, spaced, text, source_position) {
                lemma_follows_further(options, state, spaced, after);
            }
        }
    }
}

proof fn lemma_break_follows(options: PrinterOptions, state: StateView, line_mode: LineMode)
    ensures
        after_break(options, state, line_mode) matches Ok(after) ==> output_follows(
            options,
            state,
            after,
        ),
{
    let ended = if state.line_width > 0 {
        after_str(options, state, seq!['\n'])
    } else {
        Ok(state)
    };
    lemma_same_output(options, state, state);
    lemma_str_follows(options, state, seq!['\n']);
    if let Ok(fresh) = ended {
        lemma_str_follows(options, fresh, seq!['\n']);
        if let Ok(empty) = after_str(options, fresh, seq!['\n']) {
            let after = StateView { has_empty_line: true, ..empty };
            lemma_same_output(options, empty, after);
            lemma_follows_further(options, fresh, empty, after);
            lemma_follows_further(options, state, fresh, after);
        }
    }
}

/// Whether the output goes on from that of a state, be it to the end or up to an error.
pub open spec fn outcome_follows(
    options: PrinterOptions,
    before: StateView,
    outcome: Outcome,
) -> bool {
    match outcome {
        Ok(after) => output_follows(options, before, after.state),
        Err(Stop::Error(_, left)) => output_follows(options, before, left.state),
        Err(Stop::Unsupported) => true,
    }
}

/// What follows what follows, follows, whatever the outcome is.
proof fn lemma_outcome_further(
    options: PrinterOptions,
    first: StateView,
    second: StateView,
    outcome: Outcome,
)
    requires
        output_follows(options, first, second),
        outcome_follows(options, second, outcome),
    ensures
        outcome_follows(options, first, outcome),
{
    match outcome {
        Ok(after) => {
            lemma_follows_further(options, first, second, after.state);
        },
        Err(Stop::Error(_, left)) => {
            lemma_follows_further(options, first, second, left.state);
        },
        Err(Stop::Unsupported) => {},
    }
}

proof fn lemma_plain_follows(options: PrinterOptions, machine: Machine, element: FormatElement)
    ensures
        outcome_follows(options, machine.state, print_plain(options, machine, element)),
{
    let state = machine.state;
    lemma_same_output(options, state, state);
    if let Err(Stop::Error(_, left)) = print_plain(options, machine, element) {
        lemma_same_output(options, state, left.state);
    }
    if let Ok(after) = print_plain(options, machine, element) {
        match element {
            FormatElement::StaticText { text } => {
                lemma_text_follows(options, state, text@, None);
            },
            FormatElement::DynamicText { text, source_position } => {
                lemma_text_follows(options, state, text@, Some(source_position));
            },
            FormatElement::LocatedTokenText { slice, source_position } => {
                lemma_text_follows(options, state, slice@, Some(source_position));
            },
            FormatElement::Line(line_mode) => {
                let start = if machine.mode() == PrintMode::Flat {
                    machine.with_measured(false)
                } else {
                    machine
                };
                lemma_break_follows(options, start.state, line_mode);
                lemma_same_output(options, state, start.state);
                if let Ok(broken) = after_break(options, start.state, line_mode) {
                    lemma_follows_further(options, state, start.state, broken);
                    let placed = StateView {
                        pending_space: false,
                        pending_indent: start.indents.stack.current(),
                        ..broken
                    };
                    lemma_same_output(options, broken, placed);
                    lemma_follows_further(options, state, broken, placed);
                }
                if after.state.buffer == state.buffer && after.state.source_markers
                    == state.source_markers && after.state.verbatim_markers
                    == state.verbatim_markers {
                    lemma_same_output(options, state, after.state);
                }
            },
            FormatElement::Tag(Tag::StartVerbatim(_)) => {
                assert(after.state.buffer =~= state.buffer + converted(options, Seq::empty()));
                assert(state.verbatim_markers =~= after.state.verbatim_markers.subrange(
                    0,
                    state.verbatim_markers.len() as int,
                ));
            },
            _ => {
                lemma_same_output(options, state, after.state);
            },
        }
    }
}

/// Choosing a variant prints nothing, even if it ends with an error.
pub proof fn lemma_choice_prints_nothing(
    options: PrinterOptions,
    machine: Machine,
    best_fitting: BestFittingElement,
    index: int,
)
    ensures
        chosen_variant(options, machine, best_fitting, index) matches Err(Stop::Error(_, left))
            ==> left.state == (StateView { group_modes: left.state.group_modes, ..machine.state }),
    decreases best_fitting.layouts().len() - index,
{
    let variants = best_fitting.layouts();
    if 0 <= index < variants.len() - 1 {
        if let Ok((_, group_modes)) = variant_fits(options, machine, variants[index]@) {
            lemma_choice_prints_nothing(
                options,
                machine.with_group_modes(group_modes),
                best_fitting,
                index + 1,
            );
        }
    }
}

/// Printing an element adds to the output, even if it ends with an error.
pub proof fn lemma_element_follows(
    options: PrinterOptions,
    machine: Machine,
    element: FormatElement,
)
    ensures
        outcome_follows(options, machine.state, print_element(options, machine, element)),
    decreases
        machine.remaining_with(element).suffixes,
        machine.remaining_with(element).pending,
        machine.remaining_with(element).size,
        0nat,
{
    match element {
        FormatElement::BestFitting(best_fitting) => {
            lemma_best_variant(options, machine, best_fitting);
            lemma_choice_prints_nothing(options, machine.with_measured(true), best_fitting, 0);
            if let Err(Stop::Error(_, left)) = best_variant(options, machine, best_fitting) {
                lemma_same_output(options, machine.state, left.state);
            }
            if let Ok((start, variant, args)) = best_variant(options, machine, best_fitting) {
                lemma_chosen_variant(options, machine.with_measured(true), best_fitting, 0);
                lemma_same_output(options, machine.state, start.state);
                lemma_entry_follows(options, start.queueing(variant), args);
                lemma_outcome_further(
                    options,
                    machine.state,
                    start.state,
                    print_entry(options, start.queueing(variant), args),
                );
            }
        },
        FormatElement::Tag(Tag::StartFill) => {
            let args = top_args(machine.stack);
            lemma_element_counts(element);
            lemma_same_output(options, machine.state, machine.state);
            lemma_fill_follows(options, machine.entering(TagKind::Fill, args), args);
        },
        _ => {
            lemma_plain_follows(options, machine, element);
        },
    }
}

proof fn lemma_entry_follows(options: PrinterOptions, machine: Machine, args: PrintElementArgs)
    ensures
        outcome_follows(options, machine.state, print_entry(options, machine, args)),
    decreases
        machine.remaining().suffixes,
        machine.remaining().pending,
        machine.remaining().size,
        2nat,
{
    lemma_same_output(options, machine.state, machine.state);
    lemma_entry_rest_follows(options, machine, args, 0);
}

proof fn lemma_entry_rest_follows(
    options: PrinterOptions,
    machine: Machine,
    args: PrintElementArgs,
    depth: nat,
)
    ensures
        outcome_follows(options, machine.state, print_entry_rest(options, machine, args, depth)),
    decreases
        machine.remaining().suffixes,
        machine.remaining().pending,
        machine.remaining().size,
        1nat,
{
    lemma_same_output(options, machine.state, machine.state);
    if machine.queue.len() > 0 {
        let element = machine.queue[0];
        let popped = machine.popped();
        lemma_popped_remaining(machine);
        lemma_entry_rest_follows(options, popped.entering(TagKind::Entry, args), args, 1);
        lemma_element_follows(options, popped, element);
        if let Ok(next) = advanced(machine.remaining(), print_element(options, popped, element)) {
            let behind = depth_behind(element, depth);
            lemma_entry_rest_follows(options, next, args, behind);
            lemma_outcome_further(
                options,
                machine.state,
                next.state,
                print_entry_rest(options, next, args, behind),
            );
        }
    }
}

proof fn lemma_fill_follows(options: PrinterOptions, machine: Machine, args: PrintElementArgs)
    ensures
        outcome_follows(options, machine.state, print_fill(options, machine, args)),
    decreases
        machine.remaining().suffixes,
        machine.remaining().pending,
        machine.remaining().size,
        6nat,
{
    lemma_same_output(options, machine.state, machine.state);
    lemma_fill_line_follows(options, machine, args);
    if let Ok(next) = advanced(machine.remaining(), print_fill_line(options, machine, args)) {
        lemma_fill_follows(options, next, args);
        lemma_outcome_further(
            options,
            machine.state,
            next.state,
            print_fill(options, next, args),
        );
    }
}

proof fn lemma_fill_line_follows(
    options: PrinterOptions,
    machine: Machine,
    args: PrintElementArgs,
)
    ensures
        outcome_follows(options, machine.state, print_fill_line(options, machine, args)),
    decreases
        machine.remaining().suffixes,
        machine.remaining().pending,
        machine.remaining().size,
        5nat,
{
    if let Err(Stop::Error(_, left)) = fill_layout(options, machine) {
        lemma_same_output(options, machine.state, machine.with_group_modes(left).state);
    }
    if let Ok((pairs, layout, group_modes)) = fill_layout(options, machine) {
        let start = machine.with_group_modes(group_modes).with_measured(true);
        let flat = args.in_mode(PrintMode::Flat);
        lemma_same_output(options, machine.state, start.state);
        lemma_flat_pairs_follow(options, start, flat, pairs);
        lemma_outcome_further(
            options,
            machine.state,
            start.state,
            print_flat_pairs(options, start, flat, pairs),
        );
        if let Ok(next) = not_behind(
            start.remaining(),
            print_flat_pairs(options, start, flat, pairs),
        ) {
            lemma_follows_further(options, machine.state, start.state, next.state);
            lemma_last_pair_follows(options, next, args, layout);
            lemma_outcome_further(
                options,
                machine.state,
                next.state,
                print_last_pair(options, next, args, layout),
            );
        }
    }
}

proof fn lemma_flat_pairs_follow(
    options: PrinterOptions,
    machine: Machine,
    args: PrintElementArgs,
    count: nat,
)
    ensures
        outcome_follows(options, machine.state, print_flat_pairs(options, machine, args, count)),
    decreases
        machine.remaining().suffixes,
        machine.remaining().pending,
        machine.remaining().size,
        3nat,
{
    lemma_same_output(options, machine.state, machine.state);
    if count > 0 {
        lemma_entry_follows(options, machine, args);
        if let Ok(item) = advanced(machine.remaining(), print_entry(options, machine, args)) {
            lemma_entry_follows(options, item, args);
            lemma_outcome_further(
                options,
                machine.state,
                item.state,
                print_entry(options, item, args),
            );
            if let Ok(separator) = advanced(item.remaining(), print_entry(options, item, args)) {
                lemma_follows_further(options, machine.state, item.state, separator.state);
                lemma_flat_pairs_follow(options, separator, args, (count - 1) as nat);
                lemma_outcome_further(options, machine.state, separator.state, print_flat_pairs(
                    options,
                    separator,
                    args,
                    (count - 1) as nat,
                ));
            }
        }
    }
}

proof fn lemma_last_pair_follows(
    options: PrinterOptions,
    machine: Machine,
    args: PrintElementArgs,
    layout: FillPairLayout,
)
    ensures
        outcome_follows(options, machine.state, print_last_pair(options, machine, args, layout)),
    decreases
        machine.remaining().suffixes,
        machine.remaining().pending,
        machine.remaining().size,
        4nat,
{
    if let Err(Stop::Error(_, left)) = item_mode(options, machine, layout) {
        lemma_same_output(options, machine.state, machine.with_group_modes(left).state);
    }
    if let Ok((mode, group_modes)) = item_mode(options, machine, layout) {
        let measured = machine.with_group_modes(group_modes);
        lemma_same_output(options, machine.state, measured.state);
        lemma_entry_follows(options, measured, args.in_mode(mode));
        lemma_outcome_further(
            options,
            machine.state,
            measured.state,
            print_entry(options, measured, args.in_mode(mode)),
        );
        if let Ok(item) = advanced(
            machine.remaining(),
            print_entry(options, measured, args.in_mode(mode)),
        ) {
            lemma_follows_further(options, machine.state, measured.state, item.state);
            let start = item.entering(TagKind::Fill, args.in_mode(PrintMode::Flat));
            let mode = args.in_mode(separator_mode(layout));
            assert(start.remaining() == item.remaining());
            lemma_entry_follows(options, start, mode);
            lemma_outcome_further(
                options,
                machine.state,
                item.state,
                print_entry(options, start, mode),
            );
        }
    }
}

/// Printing all that is queued adds to the output, even if it ends with an error.
pub proof fn lemma_queue_follows(options: PrinterOptions, machine: Machine)
    ensures
        outcome_follows(options, machine.state, print_queue(options, machine)),
    decreases
        machine.remaining().suffixes,
        machine.remaining().pending,
        machine.remaining().size,
{
    if machine.queue.len() == 0 {
        lemma_same_output(options, machine.state, machine.state);
    } else {
        let popped = machine.popped();
        let element = machine.queue[0];
        lemma_next_progress(options, machine);
        lemma_element_follows(options, popped, element);
        reveal(print_next);
        if let Ok(printed) = print_element(options, popped, element) {
            let next = at_end(printed);
            lemma_same_output(options, printed.state, next.state);
            lemma_follows_further(options, machine.state, printed.state, next.state);
            lemma_queue_follows(options, next);
            lemma_outcome_further(
                options,
                machine.state,
                next.state,
                print_queue(options, next),
            );
        }
    }
}

/// Every line break of the code is the line ending of the options: the code is some text with its
/// line breaks converted.
pub proof fn lemma_line_endings(options: PrinterOptions, document: Seq<FormatElement>, indent: u16)
    ensures
        printed_document(options, initial_state(), document, indent) matches Ok(printed)
            ==> exists|text: Seq<char>| printed.code == #[trigger] converted(options, text),
{
    let start = starting(initial_state(), document, indent);
    lemma_queue_follows(options, start);
    if let Ok(machine) = print_queue(options, start) {
        let text = choose|text: Seq<char>|
            machine.state.buffer == start.state.buffer + #[trigger] converted(options, text);
        assert(machine.state.buffer =~= converted(options, text));
    }
}

/// With carriage returns as line endings there is no line feed in the code.
pub proof fn lemma_no_line_feeds(options: PrinterOptions, document: Seq<FormatElement>, indent: u16)
    requires
        options.line_ending == LineEnding::Cr,
    ensures
        printed_document(options, initial_state(), document, indent) matches Ok(printed)
            ==> !printed.code.contains('\n'),
{
    if let Ok(printed) = printed_document(options, initial_state(), document, indent) {
        lemma_line_endings(options, document, indent);
        let text = choose|text: Seq<char>| printed.code == #[trigger] converted(options, text);
        lemma_converted_without_feeds(options, text);
    }
}

proof fn lemma_converted_without_feeds(options: PrinterOptions, text: Seq<char>)
    requires
        options.line_ending == LineEnding::Cr,
    ensures
        !converted(options, text).contains('\n'),
    decreases text.len(),
{
    if text.len() > 0 {
        lemma_converted_without_feeds(options, text.drop_last());
        let before = converted(options, text.drop_last());
        let all = converted(options, text);
        assert forall|i: int| 0 <= i < all.len() implies #[trigger] all[i] != '\n' by {
            if i < before.len() {
                assert(all[i] == before[i]);
                assert(before.contains(before[i]));
            }
        }
    }
}

/// With a carriage return and a line feed as line ending every line feed comes behind a carriage
/// return.
pub proof fn lemma_line_feeds_behind_returns(
    options: PrinterOptions,
    document: Seq<FormatElement>,
    indent: u16,
)
    requires
        options.line_ending == LineEnding::Crlf,
    ensures
        printed_document(options, initial_state(), document, indent) matches Ok(printed)
            ==> forall|i: int|
            0 <= i < printed.code.len() && #[trigger] printed.code[i] == '\n' ==> i > 0
                && printed.code[i - 1] == '\r',
{
    if let Ok(printed) = printed_document(options, initial_state(), document, indent) {
        lemma_line_endings(options, document, indent);
        let text = choose|text: Seq<char>| printed.code == #[trigger] converted(options, text);
        lemma_converted_feeds(options, text);
    }
}

proof fn lemma_converted_feeds(options: PrinterOptions, text: Seq<char>)
    requires
        options.line_ending == LineEnding::Crlf,
    ensures
        forall|i: int|
            0 <= i < converted(options, text).len() && #[trigger] converted(options, text)[i]
                == '\n' ==> i > 0 && converted(options, text)[i - 1] == '\r',
    decreases text.len(),
{
    if text.len() > 0 {
        lemma_converted_feeds(options, text.drop_last());
        let before = converted(options, text.drop_last());
        let all = converted(options, text);
        assert forall|i: int| 0 <= i < all.len() && #[trigger] all[i] == '\n' implies i > 0
            && all[i - 1] == '\r' by {
            if i < before.len() {
                assert(all[i] == before[i]);
                assert(all[i - 1] == before[i - 1]);
            }
        }
    }
}

/// The source map of a document is in the order of the code, within the code and without
/// repetitions.
pub proof fn lemma_source_map_in_order(
    options: PrinterOptions,
    document: Seq<FormatElement>,
    indent: u16,
)
    ensures
        printed_document(options, initial_state(), document, indent) matches Ok(printed) ==> {
            let markers = printed.sourcemap;
            &&& forall|i: int, j: int|
                0 <= i < j < markers.len() ==> (#[trigger] markers[i]).dest.raw <= (
                #[trigger] markers[j]).dest.raw
            &&& forall|i: int, j: int|
                0 <= i && j == i + 1 && j < markers.len() ==> #[trigger] markers[i]
                    != #[trigger] markers[j]
            &&& forall|i: int|
                0 <= i < markers.len() ==> (#[trigger] markers[i]).dest.raw <= byte_len(
                    printed.code,
                )
        },
{
    let start = starting(initial_state(), document, indent);
    lemma_queue_follows(options, start);
    assert(mapped_in_order(start.state));
}

/// Printing characters adds them to the output, with their line breaks converted, and nothing to
/// the source map.
pub proof fn lemma_str_output(options: PrinterOptions, state: StateView, content: Seq<char>)
    ensures
        after_str(options, state, content) matches Ok(after) ==> {
            &&& after.buffer == state.buffer + converted(options, content)
            &&& after.source_markers == state.source_markers
            &&& after.source_position == state.source_position
        },
    decreases content.len(),
{
    if content.len() == 0 {
        assert(state.buffer =~= state.buffer + converted(options, content));
    } else {
        lemma_str_output(options, state, content.drop_last());
        if let Ok(after) = after_str(options, state, content) {
            assert(after.buffer =~= state.buffer + converted(options, content));
        }
    }
}

/// A text is at the end of the output, and both of its ends are in the source map: the start with
/// the position that the text comes from, or else the last known position, and the end with the
/// position behind the text, if it comes from the source, or else the last known position.
pub proof fn lemma_text_is_mapped(
    options: PrinterOptions,
    state: StateView,
    text: Seq<char>,
    source_position: Option<TextSize>,
)
    ensures
        after_text(options, state, text, source_position) matches Ok(after) ==> {
            let start = match source_position {
                Some(position) => position,
                None => state.source_position,
            };
            let printed = converted(options, text);
            &&& exists|before: Seq<char>, i: int|
                {
                    &&& after.buffer == #[trigger] (before + printed)
                    &&& 0 <= i < after.source_markers.len()
                    &&& (#[trigger] after.source_markers[i]).source == start
                    &&& after.source_markers[i].dest.raw == byte_len(before)
                }
            &&& after.source_markers.len() > 0
            &&& after.source_markers.last().dest.raw == byte_len(after.buffer)
            &&& after.source_markers.last().source.raw == start.raw + (if source_position is Some {
                byte_len(text) as int
            } else {
                0
            })
        },
{
    let indented = if state.pending_indent == Indention::Level(0) {
        Ok(state)
    } else {
        after_indent(options, state)
    };
    lemma_indent_keeps_position(options, state);
    if let Ok(before) = indented {
        lemma_str_output(options, before, seq![' ']);
        if let Ok(spaced) = after_space(options, before) {
            let start = match source_position {
                Some(position) => StateView { source_position: position, ..spaced },
                None => spaced,
            };
            if let Ok(marked) = after_marker(start) {
                let i = marked.source_markers.len() - 1;
                assert(marked.source_markers[i] == SourceMarker {
                    source: start.source_position,
                    dest: text_len(start.buffer)->Some_0,
                });
                lemma_str_output(options, marked, text);
                if let Ok(after) = after_text(options, state, text, source_position) {
                    assert(after.buffer == start.buffer + converted(options, text));
                    assert(after.source_markers[i] == marked.source_markers[i]);
                }
            }
        }
    }
}

proof fn lemma_repeated_keeps_position(
    options: PrinterOptions,
    state: StateView,
    character: char,
    count: nat,
)
    ensures
        after_repeated(options, state, character, count) matches Ok(after) ==> after.source_position
            == state.source_position,
    decreases count,
{
    if count > 0 {
        lemma_repeated_keeps_position(options, state, character, (count - 1) as nat);
    }
}

proof fn lemma_indent_keeps_position(options: PrinterOptions, state: StateView)
    ensures
        after_indent(options, state) matches Ok(after) ==> after.source_position
            == state.source_position,
{
    let start = StateView { pending_indent: Indention::Level(0), ..state };
    let (character, per_level) = indent_char(options);
    let count = state.pending_indent.levels() as nat * per_level;
    lemma_repeated_keeps_position(options, start, character, count);
    if let Ok(indented) = after_repeated(options, start, character, count) {
        lemma_repeated_keeps_position(
            options,
            indented,
            ' ',
            state.pending_indent.spaces() as nat,
        );
    }
}

} // verus!
