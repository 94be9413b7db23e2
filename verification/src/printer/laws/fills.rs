//! How the items and the separators of a fill are printed.

use crate::format_element::{total_size, FormatElement};
use crate::options::PrinterOptions;
use crate::printer::call_stack::{
    push_frame, top_args, PrintElementArgs, StackFrame, StackFrameKind,
};
use crate::printer::fits::{
    ends_behind, fits_content, fits_element, fits_end, fits_entry, fits_start, fits_text,
    lemma_fits_element_progress, measured, Fits, FitsEnd, FitsView,
};
use crate::printer::machine::{Machine, Outcome};
use crate::printer::outcome::{
    fill_layout, flat_pairs, item_mode, lemma_entry_progress, lemma_fill_line_progress,
    lemma_fits_entry_size, lemma_flat_pairs_progress, measuring_flat, pairs_layout, print_element,
    print_entry, print_fill, print_fill_line, print_flat_pairs, print_last_pair, separator_mode,
    FillPairLayout,
};
use crate::printer::queue::next_is;
use crate::printer::state::Stop;
use crate::tag::{GroupId, PrintMode, Tag, TagKind};
use vstd::prelude::*;

verus! {

/// Prints an item and the separator behind it, if there is one, in the given modes. What the
/// separator measures sees what comes behind it in flat mode.
pub open spec fn print_pair(
    options: PrinterOptions,
    machine: Machine,
    args: PrintElementArgs,
    item_mode: PrintMode,
    separator_mode: PrintMode,
) -> Outcome {
    match print_entry(options, machine, args.in_mode(item_mode)) {
        Err(halt) => Err(halt),
        Ok(item) => if next_is(item.queue, Tag::StartEntry) {
            match print_entry(
                options,
                item.entering(TagKind::Fill, args.in_mode(PrintMode::Flat)),
                args.in_mode(separator_mode),
            ) {
                Err(halt) => Err(halt),
                Ok(separator) => separator.leaving(TagKind::Fill),
            }
        } else {
            Ok(item)
        },
    }
}

/// The machine that knows the modes of the groups from measuring a fill.
pub open spec fn behind_measuring(machine: Machine, measured: FitsView) -> Machine {
    machine.with_group_modes(measured.group_modes).with_measured(true)
}

/// The last pair of a line is printed in the modes of its layout.
proof fn lemma_last_pair(
    options: PrinterOptions,
    machine: Machine,
    args: PrintElementArgs,
    layout: FillPairLayout,
)
    ensures
        item_mode(options, machine, layout) matches Ok((mode, group_modes)) ==> print_last_pair(
            options,
            machine,
            args,
            layout,
        ) == print_pair(
            options,
            machine.with_group_modes(group_modes),
            args,
            mode,
            separator_mode(layout),
        ),
{
    if let Ok((mode, group_modes)) = item_mode(options, machine, layout) {
        let start = machine.with_group_modes(group_modes);
        assert(start.remaining() == machine.remaining());
        lemma_entry_progress(options, start, args.in_mode(mode));
    }
}

/// A line without flat pairs is the pair in the modes of its layout.
proof fn lemma_line_without_flat_pairs(
    options: PrinterOptions,
    machine: Machine,
    args: PrintElementArgs,
    layout: FillPairLayout,
    group_modes: Map<GroupId, PrintMode>,
)
    requires
        fill_layout(options, machine) == Ok::<_, Stop<Map<GroupId, PrintMode>>>(
            (0nat, layout, group_modes),
        ),
    ensures
        print_fill_line(options, machine, args) == print_last_pair(
            options,
            machine.with_group_modes(group_modes).with_measured(true),
            args,
            layout,
        ),
{
}

/// If an item does not fit, the item and its separator are printed in expanded mode.
pub proof fn lemma_item_does_not_fit(
    options: PrinterOptions,
    machine: Machine,
    args: PrintElementArgs,
    measured: FitsView,
)
    requires
        fits_entry(options, measuring_flat(machine), PrintMode::Flat) == Ok::<_, Stop<FitsView>>(
            (false, measured),
        ),
    ensures
        print_fill_line(options, machine, args) == print_pair(
            options,
            behind_measuring(machine, measured),
            args,
            PrintMode::Expanded,
            PrintMode::Expanded,
        ),
{
    let start = behind_measuring(machine, measured);
    lemma_line_without_flat_pairs(
        options,
        machine,
        args,
        FillPairLayout::Expanded,
        measured.group_modes,
    );
    lemma_last_pair(options, start, args, FillPairLayout::Expanded);
    assert(start.with_group_modes(start.state.group_modes) == start);
}

/// The last item of a fill is printed in flat mode if it fits.
pub proof fn lemma_last_item_fits(
    options: PrinterOptions,
    machine: Machine,
    args: PrintElementArgs,
    item: FitsView,
)
    requires
        fits_entry(options, measuring_flat(machine), PrintMode::Flat) == Ok::<_, Stop<FitsView>>(
            (true, item),
        ),
        !next_is(item.queue, Tag::StartEntry),
    ensures
        print_fill_line(options, machine, args) == print_pair(
            options,
            behind_measuring(machine, item),
            args,
            PrintMode::Flat,
            PrintMode::Flat,
        ),
{
    let start = behind_measuring(machine, item);
    lemma_line_without_flat_pairs(options, machine, args, FillPairLayout::Flat, item.group_modes);
    lemma_last_pair(options, start, args, FillPairLayout::Flat);
    assert(start.with_group_modes(start.state.group_modes) == start);
}

/// The last item of a fill and the separator behind it are printed in flat mode if both fit.
pub proof fn lemma_last_pair_fits(
    options: PrinterOptions,
    machine: Machine,
    args: PrintElementArgs,
    item: FitsView,
    separator: FitsView,
)
    requires
        fits_entry(options, measuring_flat(machine), PrintMode::Flat) == Ok::<_, Stop<FitsView>>(
            (true, item),
        ),
        next_is(item.queue, Tag::StartEntry),
        fits_entry(options, item, PrintMode::Flat) == Ok::<_, Stop<FitsView>>((true, separator)),
        !next_is(separator.queue, Tag::StartEntry),
    ensures
        print_fill_line(options, machine, args) == print_pair(
            options,
            behind_measuring(machine, separator),
            args,
            PrintMode::Flat,
            PrintMode::Flat,
        ),
{
    let start = behind_measuring(machine, separator);
    lemma_line_without_flat_pairs(
        options,
        machine,
        args,
        FillPairLayout::Flat,
        separator.group_modes,
    );
    lemma_last_pair(options, start, args, FillPairLayout::Flat);
    assert(start.with_group_modes(start.state.group_modes) == start);
}

/// If an item and its separator fit but the next item does not, the item is printed in flat mode
/// and the separator in expanded mode.
pub proof fn lemma_next_item_does_not_fit(
    options: PrinterOptions,
    machine: Machine,
    args: PrintElementArgs,
    item: FitsView,
    separator: FitsView,
    measured: FitsView,
)
    requires
        fits_entry(options, measuring_flat(machine), PrintMode::Flat) == Ok::<_, Stop<FitsView>>(
            (true, item),
        ),
        next_is(item.queue, Tag::StartEntry),
        fits_entry(options, item, PrintMode::Flat) == Ok::<_, Stop<FitsView>>((true, separator)),
        next_is(separator.queue, Tag::StartEntry),
        fits_entry(options, separator, PrintMode::Flat) == Ok::<_, Stop<FitsView>>((false, measured)),
    ensures
        print_fill_line(options, machine, args) == print_pair(
            options,
            behind_measuring(machine, measured),
            args,
            PrintMode::Flat,
            PrintMode::Expanded,
        ),
{
    let start = behind_measuring(machine, measured);
    let layout = FillPairLayout::ItemFlatSeparatorExpanded;
    lemma_line_without_flat_pairs(options, machine, args, layout, measured.group_modes);
    lemma_last_pair(options, start, args, layout);
    assert(start.with_group_modes(start.state.group_modes) == start);
}

/// If an item fits but its separator does not in flat mode, the separator is printed in expanded
/// mode. The item is printed in flat mode if the separator fits in expanded mode, and in expanded
/// mode otherwise.
pub proof fn lemma_separator_does_not_fit(
    options: PrinterOptions,
    machine: Machine,
    args: PrintElementArgs,
    item: FitsView,
    measured: FitsView,
    again: FitsView,
    fits: bool,
    end: FitsView,
)
    requires
        fits_entry(options, measuring_flat(machine), PrintMode::Flat) == Ok::<_, Stop<FitsView>>(
            (true, item),
        ),
        next_is(item.queue, Tag::StartEntry),
        fits_entry(options, item, PrintMode::Flat) == Ok::<_, Stop<FitsView>>((false, measured)),
        fits_entry(
            options,
            measuring_flat(behind_measuring(machine, measured)),
            PrintMode::Flat,
        ) == Ok::<_, Stop<FitsView>>((true, again)),
        fits_entry(options, again, PrintMode::Expanded) == Ok::<_, Stop<FitsView>>((fits, end)),
    ensures
        print_fill_line(options, machine, args) == print_pair(
            options,
            behind_measuring(machine, end),
            args,
            if fits {
                PrintMode::Flat
            } else {
                PrintMode::Expanded
            },
            PrintMode::Expanded,
        ),
{
    let start = behind_measuring(machine, measured);
    let layout = FillPairLayout::ItemMaybeFlat;
    lemma_line_without_flat_pairs(options, machine, args, layout, measured.group_modes);
    lemma_last_pair(options, start, args, layout);
    assert(start.with_group_modes(end.group_modes) == behind_measuring(machine, end));
}

/// Counting goes on from the pairs before.
proof fn lemma_pairs_counted(options: PrinterOptions, view: FitsView, count: nat)
    ensures
        flat_pairs(options, view, count) matches Ok((pairs, _, _)) ==> pairs >= count,
    decreases total_size(view.queue),
{
    if next_is(view.queue, Tag::StartEntry) {
        lemma_fits_entry_size(options, view, PrintMode::Flat);
        if let Ok((true, separator)) = fits_entry(options, view, PrintMode::Flat) {
            if next_is(separator.queue, Tag::StartEntry) {
                lemma_fits_entry_size(options, separator, PrintMode::Flat);
                if let Ok((true, after)) = fits_entry(options, separator, PrintMode::Flat) {
                    lemma_pairs_counted(options, after, count + 1);
                }
            }
        }
    }
}

/// If an item, its separator and the next item fit, the item and the separator are printed in flat
/// mode.
pub proof fn lemma_pair_and_next_item_fit(
    options: PrinterOptions,
    machine: Machine,
    args: PrintElementArgs,
    item: FitsView,
    separator: FitsView,
    next: FitsView,
)
    requires
        fits_entry(options, measuring_flat(machine), PrintMode::Flat) == Ok::<_, Stop<FitsView>>(
            (true, item),
        ),
        next_is(item.queue, Tag::StartEntry),
        fits_entry(options, item, PrintMode::Flat) == Ok::<_, Stop<FitsView>>((true, separator)),
        next_is(separator.queue, Tag::StartEntry),
        fits_entry(options, separator, PrintMode::Flat) == Ok::<_, Stop<FitsView>>((true, next)),
    ensures
        match flat_pairs(options, next, 1) {
            Err(stop) => print_fill_line(options, machine, args) == Err::<Machine, Stop<Machine>>(
                stop.with(machine.with_group_modes(stop.left())),
            ),
            Ok((pairs, layout, group_modes)) => {
                let flat = args.in_mode(PrintMode::Flat);
                let start = machine.with_group_modes(group_modes).with_measured(true);
                &&& pairs >= 1
                &&& print_fill_line(options, machine, args) == match print_entry(
                    options,
                    start,
                    flat,
                ) {
                    Err(halt) => Err(halt),
                    Ok(printed_item) => match print_entry(options, printed_item, flat) {
                        Err(halt) => Err(halt),
                        Ok(printed_separator) => match print_flat_pairs(
                            options,
                            printed_separator,
                            flat,
                            (pairs - 1) as nat,
                        ) {
                            Err(halt) => Err(halt),
                            Ok(after) => print_last_pair(options, after, args, layout),
                        },
                    },
                }
            },
        },
{
    lemma_pairs_counted(options, next, 1);
    lemma_fits_entry_size(options, item, PrintMode::Flat);
    assert(fill_layout(options, machine) == flat_pairs(options, next, 1));
    if let Ok((pairs, layout, group_modes)) = flat_pairs(options, next, 1) {
        let flat = args.in_mode(PrintMode::Flat);
        let start = machine.with_group_modes(group_modes).with_measured(true);
        lemma_entry_progress(options, start, flat);
        lemma_flat_pairs_progress(options, start, flat, pairs);
        if let Ok(printed_item) = print_entry(options, start, flat) {
            lemma_entry_progress(options, printed_item, flat);
        }
    }
}

/// Whether an element asks for the mode of a group.
pub open spec fn asks_for_group(element: FormatElement) -> bool {
    match element {
        FormatElement::Tag(Tag::StartConditionalContent(condition)) => condition.group_id is Some,
        FormatElement::Tag(Tag::StartIndentIfGroupBreaks(_)) => true,
        FormatElement::Tag(Tag::EndIndentIfGroupBreaks(_)) => true,
        _ => false,
    }
}

/// Whether measuring meets no element that asks for the mode of a group.
pub open spec fn asks_for_no_group(options: PrinterOptions, view: FitsView, end: FitsEnd) -> bool
    decreases total_size(view.queue),
{
    if view.queue.len() == 0 {
        true
    } else {
        let element = view.queue[0];
        let popped = FitsView { queue: view.queue.drop_first(), ..view };
        proof {
            lemma_fits_element_progress(options, view);
        }
        &&& !asks_for_group(element)
        &&& match fits_element(options, popped, element) {
            Ok((Fits::Maybe, after)) => match ends_behind(end, element) {
                Ok((false, new_end)) => asks_for_no_group(options, after, new_end),
                _ => true,
            },
            _ => true,
        }
    }
}

/// Whether measuring led to the same, but for the modes of the groups.
pub open spec fn same_but_groups(
    one: Result<(Fits, FitsView), Stop<FitsView>>,
    other: Result<(Fits, FitsView), Stop<FitsView>>,
) -> bool {
    match (one, other) {
        (Ok((fits, after)), Ok((other_fits, other_after))) => {
            &&& other_fits == fits
            &&& other_after == (FitsView { group_modes: other_after.group_modes, ..after })
        },
        (Err(stop), Err(other_stop)) => other_stop.halt() == stop.halt(),
        _ => false,
    }
}

/// Measuring a start tag that asks for no group does not depend on the modes of the groups.
proof fn lemma_start_without_groups(
    options: PrinterOptions,
    view: FitsView,
    other: FitsView,
    tag: Tag,
)
    requires
        !asks_for_group(FormatElement::Tag(tag)),
        other == (FitsView { group_modes: other.group_modes, ..view }),
    ensures
        same_but_groups(fits_start(options, view, tag), fits_start(options, other, tag)),
{
}

/// Measuring an element that asks for no group does not depend on the modes of the groups.
proof fn lemma_element_without_groups(
    options: PrinterOptions,
    view: FitsView,
    other: FitsView,
    element: FormatElement,
)
    requires
        !asks_for_group(element),
        other == (FitsView { group_modes: other.group_modes, ..view }),
    ensures
        same_but_groups(
            fits_element(options, view, element),
            fits_element(options, other, element),
        ),
{
    match element {
        FormatElement::Tag(tag) => {
            if tag.starts() {
                lemma_start_without_groups(options, view, other, tag);
            } else {
                lemma_end_without_groups(view, other, tag);
            }
        },
        FormatElement::StaticText { text } => {
            lemma_text_without_groups(options, view, other, text@);
        },
        FormatElement::DynamicText { text, .. } => {
            lemma_text_without_groups(options, view, other, text@);
        },
        FormatElement::LocatedTokenText { slice, .. } => {
            lemma_text_without_groups(options, view, other, slice@);
        },
        _ => {},
    }
}

proof fn lemma_end_without_groups(view: FitsView, other: FitsView, tag: Tag)
    requires
        !asks_for_group(FormatElement::Tag(tag)),
        other == (FitsView { group_modes: other.group_modes, ..view }),
    ensures
        same_but_groups(fits_end(view, tag), fits_end(other, tag)),
{
}

proof fn lemma_text_without_groups(
    options: PrinterOptions,
    view: FitsView,
    other: FitsView,
    text: Seq<char>,
)
    requires
        other == (FitsView { group_modes: other.group_modes, ..view }),
    ensures
        same_but_groups(fits_text(options, view, text), fits_text(options, other, text)),
{
}

/// Measuring that asks for no group does not depend on the modes of the groups.
proof fn lemma_measured_without_groups(
    options: PrinterOptions,
    view: FitsView,
    other: FitsView,
    end: FitsEnd,
)
    requires
        asks_for_no_group(options, view, end),
        other == (FitsView { group_modes: other.group_modes, ..view }),
    ensures
        match (fits_content(options, view, end), fits_content(options, other, end)) {
            (Ok((fits, after, new_end)), Ok((other_fits, other_after, other_end))) => {
                &&& other_fits == fits
                &&& other_end == new_end
                &&& other_after.stack == after.stack
                &&& other_after.queue == after.queue
            },
            (Err(stop), Err(other_stop)) => other_stop.halt() == stop.halt(),
            _ => false,
        },
    decreases total_size(view.queue),
{
    if view.queue.len() > 0 {
        let element = view.queue[0];
        let popped = FitsView { queue: view.queue.drop_first(), ..view };
        let other_popped = FitsView { queue: other.queue.drop_first(), ..other };
        lemma_fits_element_progress(options, view);
        lemma_element_without_groups(options, popped, other_popped, element);
        if let Ok((Fits::Maybe, after)) = fits_element(options, popped, element) {
            let other_after = fits_element(options, other_popped, element)->Ok_0.1;
            if let Ok((false, new_end)) = ends_behind(end, element) {
                lemma_measured_without_groups(options, after, other_after, new_end);
            }
        }
    }
}

/// An item that fits still fits when it is measured again right away, if it asks for the mode of no
/// group.
pub proof fn lemma_item_fits_again(
    options: PrinterOptions,
    machine: Machine,
    item: FitsView,
    measured: FitsView,
)
    requires
        fits_entry(options, measuring_flat(machine), PrintMode::Flat) == Ok::<_, Stop<FitsView>>(
            (true, item),
        ),
        asks_for_no_group(
            options,
            (FitsView {
                stack: push_frame(
                    machine.stack,
                    TagKind::Fill,
                    top_args(machine.stack).in_mode(PrintMode::Flat),
                ),
                ..measuring_flat(machine)
            }),
            FitsEnd::Entry { depth: 0 },
        ),
    ensures
        fits_entry(
            options,
            measuring_flat(behind_measuring(machine, measured)),
            PrintMode::Flat,
        ) matches Ok((fits, _)) && fits,
{
    let view = measuring_flat(machine);
    let other = measuring_flat(behind_measuring(machine, measured));
    let args = top_args(view.stack).in_mode(PrintMode::Flat);
    let stack = push_frame(view.stack, TagKind::Fill, args);
    let start = FitsView { stack, ..view };
    let other_start = FitsView { stack, ..other };
    assert(other_start == (FitsView { group_modes: other_start.group_modes, ..start }));
    lemma_measured_without_groups(options, start, other_start, FitsEnd::Entry { depth: 0 });
}

/// Whether an entry comes next and fits on the line in flat mode, and measuring it leads from one
/// view to the next.
pub open spec fn fits_at(options: PrinterOptions, views: Seq<FitsView>, index: int) -> bool {
    &&& next_is(views[index].queue, Tag::StartEntry)
    &&& fits_entry(options, views[index], PrintMode::Flat) == Ok::<_, Stop<FitsView>>(
        (true, views[index + 1]),
    )
}

/// Whether entries fit on the line one after the other in flat mode: measuring each of them leads
/// from one view to the next.
pub open spec fn fits_in_row(options: PrinterOptions, views: Seq<FitsView>) -> bool {
    &&& views.len() > 0
    &&& forall|i: int| 0 <= i < views.len() - 1 ==> #[trigger] fits_at(options, views, i)
}

/// Prints so many entries one after the other, all in the same mode.
pub open spec fn print_row(
    options: PrinterOptions,
    machine: Machine,
    mode: PrintMode,
    count: nat,
) -> Outcome
    decreases count,
{
    if count == 0 {
        Ok(machine)
    } else {
        match print_entry(options, machine, PrintElementArgs { mode }) {
            Err(stop) => Err(stop),
            Ok(after) => print_row(options, after, mode, (count - 1) as nat),
        }
    }
}

/// Prints so many entries in flat mode, and behind them an item and its separator in the given
/// modes.
pub open spec fn print_row_and_pair(
    options: PrinterOptions,
    machine: Machine,
    args: PrintElementArgs,
    count: nat,
    item_mode: PrintMode,
    separator_mode: PrintMode,
) -> Outcome {
    match print_row(options, machine, PrintMode::Flat, count) {
        Err(stop) => Err(stop),
        Ok(after) => print_pair(options, after, args, item_mode, separator_mode),
    }
}

/// Every pair of a row is counted.
proof fn lemma_row_counted(
    options: PrinterOptions,
    views: Seq<FitsView>,
    pairs: nat,
    count: nat,
)
    requires
        fits_in_row(options, views),
        views.len() >= 2 * pairs + 2,
        count + pairs <= usize::MAX,
    ensures
        flat_pairs(options, views[1], count) == flat_pairs(
            options,
            views[2 * pairs as int + 1],
            count + pairs,
        ),
    decreases pairs,
{
    if pairs > 0 {
        let others = views.skip(2);
        assert(fits_in_row(options, others)) by {
            assert forall|i: int| 0 <= i < others.len() - 1 implies #[trigger] fits_at(
                options,
                others,
                i,
            ) by {
                assert(fits_at(options, views, i + 2));
                assert(others[i] == views[i + 2]);
                assert(others[i + 1] == views[i + 3]);
            }
        }
        assert(fits_at(options, views, 1));
        assert(fits_at(options, views, 2));
        lemma_fits_entry_size(options, views[1], PrintMode::Flat);
        lemma_fits_entry_size(options, views[2], PrintMode::Flat);
        assert(flat_pairs(options, views[1], count) == flat_pairs(options, views[3], count + 1));
        lemma_row_counted(options, others, (pairs - 1) as nat, count + 1);
        assert(others[1] == views[3]);
        assert(others[2 * (pairs - 1) + 1] == views[2 * pairs as int + 1]);
    }
}

/// Flat pairs are entries in a row.
proof fn lemma_pairs_in_row(
    options: PrinterOptions,
    machine: Machine,
    args: PrintElementArgs,
    count: nat,
)
    requires
        args.mode == PrintMode::Flat,
    ensures
        print_flat_pairs(options, machine, args, count) == print_row(
            options,
            machine,
            PrintMode::Flat,
            2 * count,
        ),
    decreases count,
{
    assert(args == PrintElementArgs { mode: PrintMode::Flat });
    reveal_with_fuel(print_row, 3);
    if count > 0 {
        lemma_entry_progress(options, machine, args);
        if let Ok(item) = print_entry(options, machine, args) {
            lemma_entry_progress(options, item, args);
            if let Ok(separator) = print_entry(options, item, args) {
                lemma_pairs_in_row(options, separator, args, (count - 1) as nat);
            }
        }
    }
}

/// A line of a fill is its flat pairs in a row, and the pair behind them.
proof fn lemma_line_in_row(
    options: PrinterOptions,
    machine: Machine,
    args: PrintElementArgs,
    pairs: nat,
    layout: FillPairLayout,
    group_modes: Map<GroupId, PrintMode>,
)
    requires
        fill_layout(options, machine) == Ok::<_, Stop<Map<GroupId, PrintMode>>>(
            (pairs, layout, group_modes),
        ),
    ensures
        print_fill_line(options, machine, args) == match print_row(
            options,
            machine.with_group_modes(group_modes).with_measured(true),
            PrintMode::Flat,
            2 * pairs,
        ) {
            Err(stop) => Err(stop),
            Ok(after) => print_last_pair(options, after, args, layout),
        },
{
    let start = machine.with_group_modes(group_modes).with_measured(true);
    let flat = args.in_mode(PrintMode::Flat);
    lemma_pairs_in_row(options, start, flat, pairs);
    lemma_flat_pairs_progress(options, start, flat, pairs);
}

/// However many items and separators fit on the line one after the other, up to the last item of the
/// fill: all of them are printed in flat mode.
pub proof fn lemma_all_items_fit(
    options: PrinterOptions,
    machine: Machine,
    args: PrintElementArgs,
    views: Seq<FitsView>,
    pairs: nat,
)
    requires
        fits_in_row(options, views),
        views[0] == measuring_flat(machine),
        views.len() == 2 * pairs + 2,
        pairs <= usize::MAX,
        !next_is(views.last().queue, Tag::StartEntry),
    ensures
        print_fill_line(options, machine, args) == print_row_and_pair(
            options,
            behind_measuring(machine, views.last()),
            args,
            2 * pairs,
            PrintMode::Flat,
            PrintMode::Flat,
        ),
{
    let last = views.last();
    let start = behind_measuring(machine, last);
    assert(fits_at(options, views, 0));
    lemma_row_counted(options, views, pairs, 0);
    lemma_line_in_row(options, machine, args, pairs, FillPairLayout::Flat, last.group_modes);
    if let Ok(after) = print_row(options, start, PrintMode::Flat, 2 * pairs) {
        lemma_last_pair(options, after, args, FillPairLayout::Flat);
        assert(after.with_group_modes(after.state.group_modes) == after);
    }
}

/// However many items and separators fit on the line one after the other, up to a separator that
/// ends the fill: all of them are printed in flat mode.
pub proof fn lemma_all_pairs_fit(
    options: PrinterOptions,
    machine: Machine,
    args: PrintElementArgs,
    views: Seq<FitsView>,
    pairs: nat,
)
    requires
        fits_in_row(options, views),
        views[0] == measuring_flat(machine),
        views.len() == 2 * pairs + 3,
        pairs <= usize::MAX,
        !next_is(views.last().queue, Tag::StartEntry),
    ensures
        print_fill_line(options, machine, args) == print_row_and_pair(
            options,
            behind_measuring(machine, views.last()),
            args,
            2 * pairs,
            PrintMode::Flat,
            PrintMode::Flat,
        ),
{
    let last = views.last();
    let start = behind_measuring(machine, last);
    assert(fits_at(options, views, 0));
    assert(fits_at(options, views, 2 * pairs as int + 1));
    lemma_row_counted(options, views, pairs, 0);
    lemma_line_in_row(options, machine, args, pairs, FillPairLayout::Flat, last.group_modes);
    if let Ok(after) = print_row(options, start, PrintMode::Flat, 2 * pairs) {
        lemma_last_pair(options, after, args, FillPairLayout::Flat);
        assert(after.with_group_modes(after.state.group_modes) == after);
    }
}

/// However many items and separators fit on the line one after the other: a separator is broken only
/// where the item behind it does not fit, and everything before it is printed in flat mode.
pub proof fn lemma_break_before_item(
    options: PrinterOptions,
    machine: Machine,
    args: PrintElementArgs,
    views: Seq<FitsView>,
    pairs: nat,
    measured: FitsView,
)
    requires
        fits_in_row(options, views),
        views[0] == measuring_flat(machine),
        views.len() == 2 * pairs + 3,
        pairs <= usize::MAX,
        next_is(views.last().queue, Tag::StartEntry),
        fits_entry(options, views.last(), PrintMode::Flat) == Ok::<_, Stop<FitsView>>(
            (false, measured),
        ),
    ensures
        print_fill_line(options, machine, args) == print_row_and_pair(
            options,
            behind_measuring(machine, measured),
            args,
            2 * pairs,
            PrintMode::Flat,
            PrintMode::Expanded,
        ),
{
    let start = behind_measuring(machine, measured);
    let layout = FillPairLayout::ItemFlatSeparatorExpanded;
    assert(fits_at(options, views, 0));
    assert(fits_at(options, views, 2 * pairs as int + 1));
    lemma_row_counted(options, views, pairs, 0);
    lemma_line_in_row(options, machine, args, pairs, layout, measured.group_modes);
    if let Ok(after) = print_row(options, start, PrintMode::Flat, 2 * pairs) {
        lemma_last_pair(options, after, args, layout);
        assert(after.with_group_modes(after.state.group_modes) == after);
    }
}

/// However many items and separators fit on the line one after the other: a separator that does not
/// fit behind them is broken. The item before it, measured again behind what was printed, is printed
/// in flat mode if the broken separator fits, and in expanded mode otherwise.
pub proof fn lemma_break_at_separator(
    options: PrinterOptions,
    machine: Machine,
    args: PrintElementArgs,
    views: Seq<FitsView>,
    pairs: nat,
    measured: FitsView,
    row: Machine,
    again: FitsView,
    fits: bool,
    end: FitsView,
)
    requires
        fits_in_row(options, views),
        views[0] == measuring_flat(machine),
        views.len() == 2 * pairs + 2,
        pairs <= usize::MAX,
        next_is(views.last().queue, Tag::StartEntry),
        fits_entry(options, views.last(), PrintMode::Flat) == Ok::<_, Stop<FitsView>>(
            (false, measured),
        ),
        print_row(options, behind_measuring(machine, measured), PrintMode::Flat, 2 * pairs) == Ok::<
            Machine,
            Stop<Machine>,
        >(row),
        fits_entry(options, measuring_flat(row), PrintMode::Flat) == Ok::<_, Stop<FitsView>>(
            (true, again),
        ),
        fits_entry(options, again, PrintMode::Expanded) == Ok::<_, Stop<FitsView>>((fits, end)),
    ensures
        print_fill_line(options, machine, args) == print_pair(
            options,
            row.with_group_modes(end.group_modes),
            args,
            if fits {
                PrintMode::Flat
            } else {
                PrintMode::Expanded
            },
            PrintMode::Expanded,
        ),
{
    let layout = FillPairLayout::ItemMaybeFlat;
    assert(fits_at(options, views, 0));
    lemma_row_counted(options, views, pairs, 0);
    lemma_line_in_row(options, machine, args, pairs, layout, measured.group_modes);
    lemma_last_pair(options, row, args, layout);
}

/// A fill whose items and separators all fit on the line one after the other, up to its end, prints
/// each of them in flat mode, and nothing else.
pub proof fn lemma_fill_that_fits(
    options: PrinterOptions,
    machine: Machine,
    args: PrintElementArgs,
    views: Seq<FitsView>,
    pairs: nat,
    after: Machine,
)
    requires
        fits_in_row(options, views),
        views[0] == measuring_flat(machine),
        views.len() == 2 * pairs + 2,
        pairs <= usize::MAX,
        !next_is(views.last().queue, Tag::StartEntry),
        print_row(
            options,
            behind_measuring(machine, views.last()),
            PrintMode::Flat,
            2 * pairs + 1,
        ) == Ok::<Machine, Stop<Machine>>(after),
        next_is(after.queue, Tag::EndFill),
    ensures
        print_fill(options, machine, args) == Ok::<Machine, Stop<Machine>>(after),
{
    let start = behind_measuring(machine, views.last());
    assert(fits_at(options, views, 0));
    lemma_all_items_fit(options, machine, args, views, pairs);
    lemma_row_apart(options, start, PrintMode::Flat, 2 * pairs, 1);
    let row = print_row(options, start, PrintMode::Flat, 2 * pairs)->Ok_0;
    lemma_single_entry_row(options, row, PrintMode::Flat);
    lemma_item_alone(options, row, args, after);
    lemma_fill_goes_on(options, machine, args);
    lemma_fill_goes_on(options, after, args);
}

/// A row of a single entry.
proof fn lemma_single_entry_row(options: PrinterOptions, machine: Machine, mode: PrintMode)
    ensures
        print_row(options, machine, mode, 1) == print_entry(
            options,
            machine,
            PrintElementArgs { mode },
        ),
{
    reveal_with_fuel(print_row, 2);
}

/// An item without a separator behind it is all of a pair.
proof fn lemma_item_alone(
    options: PrinterOptions,
    machine: Machine,
    args: PrintElementArgs,
    after: Machine,
)
    requires
        print_entry(options, machine, PrintElementArgs { mode: PrintMode::Flat }) == Ok::<
            Machine,
            Stop<Machine>,
        >(after),
        next_is(after.queue, Tag::EndFill),
    ensures
        print_pair(options, machine, args, PrintMode::Flat, PrintMode::Flat) == Ok::<
            Machine,
            Stop<Machine>,
        >(after),
{
    assert(args.in_mode(PrintMode::Flat) == PrintElementArgs { mode: PrintMode::Flat });
}

/// A row goes on behind its first entries.
pub proof fn lemma_row_apart(
    options: PrinterOptions,
    machine: Machine,
    mode: PrintMode,
    count: nat,
    more: nat,
)
    ensures
        print_row(options, machine, mode, count + more) == match print_row(
            options,
            machine,
            mode,
            count,
        ) {
            Err(stop) => Err(stop),
            Ok(after) => print_row(options, after, mode, more),
        },
    decreases count,
{
    if count > 0 {
        if let Ok(after) = print_entry(options, machine, PrintElementArgs { mode }) {
            lemma_row_apart(options, after, mode, (count - 1) as nat, more);
        }
    }
}

/// A fill goes on with another line where another item follows, and ends at its end tag.
pub proof fn lemma_fill_goes_on(
    options: PrinterOptions,
    machine: Machine,
    args: PrintElementArgs,
)
    ensures
        next_is(machine.queue, Tag::StartEntry) ==> print_fill(options, machine, args) == match
            print_fill_line(options, machine, args) {
            Err(stop) => Err(stop),
            Ok(line) => print_fill(options, line, args),
        },
        next_is(machine.queue, Tag::EndFill) ==> print_fill(options, machine, args) == Ok::<
            Machine,
            Stop<Machine>,
        >(machine),
{
    lemma_fill_line_progress(options, machine, args);
}

/// The start of a fill prints the entries up to the end of the fill. Where everything is known to fit
/// in flat mode, the entries are printed like any other content instead.
pub proof fn lemma_fill_starts(options: PrinterOptions, machine: Machine)
    ensures
        ({
            let args = PrintElementArgs { mode: machine.stack.last().args.mode };
            let inside = Machine {
                stack: machine.stack.push(
                    StackFrame { kind: StackFrameKind::Tag(TagKind::Fill), args },
                ),
                ..machine
            };
            print_element(options, machine, FormatElement::Tag(Tag::StartFill)) == (if args.mode
                == PrintMode::Flat && machine.state.measured_group_fits {
                Ok::<Machine, Stop<Machine>>(inside)
            } else {
                print_fill(options, inside, args)
            })
        }),
{
    assert(machine.entering(TagKind::Fill, top_args(machine.stack)) =~= (Machine {
        stack: machine.stack.push(
            StackFrame {
                kind: StackFrameKind::Tag(TagKind::Fill),
                args: PrintElementArgs { mode: machine.stack.last().args.mode },
            },
        ),
        ..machine
    }));
}

/// Measuring a fill fails where measuring one of its entries does.
proof fn lemma_layout_fails(options: PrinterOptions, views: Seq<FitsView>, stop: Stop<FitsView>)
    requires
        fits_in_row(options, views),
        views.len() <= usize::MAX,
        next_is(views.last().queue, Tag::StartEntry),
        fits_entry(options, views.last(), PrintMode::Flat) == Err::<(bool, FitsView), _>(stop),
    ensures
        next_is(views[0].queue, Tag::StartEntry),
        pairs_layout(options, views[0]) matches Err(other) && other.halt() == stop.halt(),
{
    let last = views.len() - 1;
    if last > 0 {
        let pairs = ((last - 1) / 2) as nat;
        assert(fits_at(options, views, 0));
        lemma_row_counted(options, views, pairs, 0);
        let view = views[2 * pairs as int + 1];
        if last == 2 * pairs + 2 {
            assert(fits_at(options, views, 2 * pairs as int + 1));
            lemma_pair_fails(options, view, views.last(), pairs, stop);
        } else {
            assert(view == views.last());
            assert(flat_pairs(options, view, pairs) == Err::<
                (nat, FillPairLayout, Map<GroupId, PrintMode>),
                _,
            >(stop.with(stop.left().group_modes)));
        }
    }
}

/// Measuring the pairs fails where measuring an item behind a separator does.
proof fn lemma_pair_fails(
    options: PrinterOptions,
    view: FitsView,
    separated: FitsView,
    count: nat,
    stop: Stop<FitsView>,
)
    requires
        next_is(view.queue, Tag::StartEntry),
        fits_entry(options, view, PrintMode::Flat) == Ok::<_, Stop<FitsView>>((true, separated)),
        next_is(separated.queue, Tag::StartEntry),
        fits_entry(options, separated, PrintMode::Flat) == Err::<(bool, FitsView), _>(stop),
    ensures
        flat_pairs(options, view, count) == Err::<
            (nat, FillPairLayout, Map<GroupId, PrintMode>),
            _,
        >(stop.with(stop.left().group_modes)),
{
}

/// An entry that cannot be measured, behind entries that fit on the line, stops printing the fill with
/// the error that measuring it gives.
pub proof fn lemma_fill_with_error(
    options: PrinterOptions,
    machine: Machine,
    args: PrintElementArgs,
    views: Seq<FitsView>,
    stop: Stop<FitsView>,
)
    requires
        fits_in_row(options, views),
        views[0] == measuring_flat(machine),
        views.len() <= usize::MAX,
        next_is(views.last().queue, Tag::StartEntry),
        fits_entry(options, views.last(), PrintMode::Flat) == Err::<(bool, FitsView), _>(stop),
    ensures
        print_fill(options, machine, args) matches Err(other) && other.halt() == stop.halt(),
{
    lemma_layout_fails(options, views, stop);
    lemma_fill_goes_on(options, machine, args);
    lemma_line_fails(options, machine, args);
}

/// A line of a fill that cannot be measured is not printed.
proof fn lemma_line_fails(options: PrinterOptions, machine: Machine, args: PrintElementArgs)
    ensures
        pairs_layout(options, measuring_flat(machine)) matches Err(stop) ==> (print_fill_line(
            options,
            machine,
            args,
        ) matches Err(other) && other.halt() == stop.halt()),
{
}

} // verus!
