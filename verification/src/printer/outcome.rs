//! What printing elements with entries, and whole documents, leads to.

use crate::format_element::{
    lemma_concat_counts, lemma_element_counts, lemma_first_counts, lemma_variant_counts, total_size,
    BestFittingElement, FormatElement,
};
use crate::options::PrinterOptions;
use crate::printed::PrintedView;
use crate::printer::call_stack::{
    push_frame, top_args, top_kind, IndentView, PrintElementArgs, PrintIndentView, StackFrame,
    StackFrameKind,
};
use crate::printer::fits::{
    ends_behind, fits_content, fits_element, fits_entry, lemma_fits_element_progress, measuring,
    FitsEnd, FitsView,
};
use crate::printer::indention::Indention;
use crate::printer::invalid::{end_error, start_error};
use crate::printer::machine::{
    fits_on_line, flushed, lemma_flushed_remaining, lemma_plain_progress, print_plain, Machine,
    Outcome, Remaining,
};
use crate::printer::queue::{next_is, top_element};
use crate::printer::state::{Halt, StateView, Stop};
use crate::tag::{GroupId, PrintMode, Tag, TagKind};
use vstd::prelude::*;

verus! {

/// How to print an item of a fill and the separator behind it.
#[derive(Clone, Copy, Debug, PartialEq, Eq, Structural)]
pub enum FillPairLayout {
    /// The item, separator, and next item fit. Print the first item and the separator in flat mode.
    Flat,
    /// The item and separator fit but the next element does not. Print the item in flat mode and
    /// the separator in expanded mode.
    ItemFlatSeparatorExpanded,
    /// The item does not fit. Print the item and any potential separator in expanded mode.
    Expanded,
    /// The item fits but the separator does not in flat mode. If the separator fits in expanded
    /// mode then print the item in flat and the separator in expanded mode, otherwise print both in
    /// expanded mode.
    ItemMaybeFlat,
}

/// Whether a variant fits on the line in flat mode, and the modes of the groups after measuring it.
pub open spec fn variant_fits(
    options: PrinterOptions,
    machine: Machine,
    variant: Seq<FormatElement>,
) -> Result<(bool, Map<GroupId, PrintMode>), Stop<Machine>> {
    if variant.len() == 0 {
        Err(Stop::Error(start_error(TagKind::Entry, None), machine))
    } else if variant[0] != FormatElement::Tag(Tag::StartEntry) {
        Err(Stop::Error(start_error(TagKind::Entry, Some(variant[0])), machine))
    } else {
        let flat = top_args(machine.stack).in_mode(PrintMode::Flat);
        let inside = machine.queueing(variant.drop_first()).entering(TagKind::Entry, flat);
        match fits_on_line(options, inside) {
            Err(stop) => Err(stop.with(inside.with_group_modes(stop.left()))),
            Ok(measured) => if variant.len() == 1 {
                Err(Stop::Unsupported)
            } else {
                Ok(measured)
            },
        }
    }
}

/// The variant to print, the machine after measuring the variants before it, and the arguments to
/// print it with: the first variant from `index` on that fits, in flat mode, or the last variant, in
/// expanded mode.
pub open spec fn chosen_variant(
    options: PrinterOptions,
    machine: Machine,
    best_fitting: BestFittingElement,
    index: int,
) -> Result<(Machine, Seq<FormatElement>, PrintElementArgs), Stop<Machine>>
    decreases best_fitting.layouts().len() - index,
{
    let variants = best_fitting.layouts();
    let args = top_args(machine.stack);
    if index < 0 || variants.len() == 0 {
        Err(Stop::Unsupported)
    } else if index >= variants.len() - 1 {
        Ok((machine, variants.last()@, args.in_mode(PrintMode::Expanded)))
    } else {
        match variant_fits(options, machine, variants[index]@) {
            Err(stop) => Err(stop),
            Ok((fits, group_modes)) => if fits {
                Ok(
                    (
                        machine.with_group_modes(group_modes),
                        variants[index]@,
                        args.in_mode(PrintMode::Flat),
                    ),
                )
            } else {
                chosen_variant(
                    options,
                    machine.with_group_modes(group_modes),
                    best_fitting,
                    index + 1,
                )
            },
        }
    }
}

/// Choosing a variant changes only the modes of the groups, and the variant is one of those that
/// the element has.
pub proof fn lemma_chosen_variant(
    options: PrinterOptions,
    machine: Machine,
    best_fitting: BestFittingElement,
    index: int,
)
    ensures
        chosen_variant(options, machine, best_fitting, index) matches Ok((after, variant, args))
            ==> {
            &&& after == machine.with_group_modes(after.state.group_modes)
            &&& after.remaining() == machine.remaining()
            &&& exists|i: int|
                0 <= i < best_fitting.layouts().len() && variant == (
                #[trigger] best_fitting.layouts()[i])@
        },
    decreases best_fitting.layouts().len() - index,
{
    let variants = best_fitting.layouts();
    let args = top_args(machine.stack);
    if index >= 0 && variants.len() > 0 {
        if index >= variants.len() - 1 {
            assert(variants.last()@ == variants[variants.len() - 1]@);
            assert(machine == machine.with_group_modes(machine.state.group_modes));
        } else {
            if let Ok((fits, group_modes)) = variant_fits(options, machine, variants[index]@) {
                lemma_chosen_variant(
                    options,
                    machine.with_group_modes(group_modes),
                    best_fitting,
                    index + 1,
                );
            }
        }
    }
}

/// The variant of a best fitting element to print, the machine before printing it, and the
/// arguments to print it with.
pub open spec fn best_variant(
    options: PrinterOptions,
    machine: Machine,
    best_fitting: BestFittingElement,
) -> Result<(Machine, Seq<FormatElement>, PrintElementArgs), Stop<Machine>> {
    if best_fitting.layouts().len() == 0 {
        Err(Stop::Unsupported)
    } else if machine.mode() == PrintMode::Flat && machine.state.measured_group_fits {
        Ok((machine, best_fitting.layouts().first()@, top_args(machine.stack)))
    } else {
        chosen_variant(options, machine.with_measured(true), best_fitting, 0)
    }
}

/// Printing the chosen variant is less than printing the element.
pub proof fn lemma_best_variant(
    options: PrinterOptions,
    machine: Machine,
    best_fitting: BestFittingElement,
)
    ensures
        best_variant(options, machine, best_fitting) matches Ok((after, variant, args)) ==> {
            after.queueing(variant).remaining().less(
                machine.remaining_with(FormatElement::BestFitting(best_fitting)),
            )
        },
{
    let variants = best_fitting.layouts();
    lemma_chosen_variant(options, machine.with_measured(true), best_fitting, 0);
    if let Ok((after, variant, args)) = best_variant(options, machine, best_fitting) {
        assert(after.remaining() == machine.remaining());
        assert(exists|i: int| 0 <= i < variants.len() && variant == (#[trigger] variants[i])@) by {
            if machine.mode() == PrintMode::Flat && machine.state.measured_group_fits {
                assert(variant == variants[0]@);
            }
        }
        let i = choose|i: int| 0 <= i < variants.len() && variant == (#[trigger] variants[i])@;
        lemma_variant_counts(best_fitting, i);
        lemma_concat_counts(variant, after.queue);
    }
}

/// Measuring takes elements from the queue.
pub proof fn lemma_fits_content_size(options: PrinterOptions, view: FitsView, end: FitsEnd)
    ensures
        fits_content(options, view, end) matches Ok((_, after, _)) ==> {
            &&& total_size(after.queue) <= total_size(view.queue)
            &&& view.queue.len() > 0 ==> total_size(after.queue) < total_size(view.queue)
        },
    decreases total_size(view.queue),
{
    if view.queue.len() > 0 {
        lemma_fits_element_progress(options, view);
        let popped = FitsView { queue: view.queue.drop_first(), ..view };
        if let Ok((_, after)) = fits_element(
            options,
            popped,
            view.queue[0],
        ) {
            if let Ok((_, new_end)) = ends_behind(end, view.queue[0]) {
                lemma_fits_content_size(options, after, new_end);
            }
        }
    }
}

/// Measuring an entry takes elements from the queue.
pub proof fn lemma_fits_entry_size(options: PrinterOptions, view: FitsView, mode: PrintMode)
    ensures
        fits_entry(options, view, mode) matches Ok((_, after)) ==> total_size(after.queue)
            < total_size(view.queue),
{
    let args = top_args(view.stack).in_mode(mode);
    let start = FitsView {
        stack: push_frame(view.stack, TagKind::Fill, args),
        ..view
    };
    lemma_fits_content_size(options, start, FitsEnd::Entry { depth: 0 });
}

/// How many pairs of items and separators fit on the line behind an item that fits, with the
/// `count` pairs before, and how to print the pair behind them.
pub open spec fn flat_pairs(options: PrinterOptions, view: FitsView, count: nat) -> Result<
    (nat, FillPairLayout, Map<GroupId, PrintMode>),
    Stop<Map<GroupId, PrintMode>>,
>
    decreases total_size(view.queue),
{
    if !next_is(view.queue, Tag::StartEntry) {
        Ok((count, FillPairLayout::Flat, view.group_modes))
    } else {
        proof {
            lemma_fits_entry_size(options, view, PrintMode::Flat);
        }
        match fits_entry(options, view, PrintMode::Flat) {
            Err(stop) => Err(stop.with(stop.left().group_modes)),
            Ok((false, after)) => Ok((count, FillPairLayout::ItemMaybeFlat, after.group_modes)),
            Ok((true, separated)) => if !next_is(separated.queue, Tag::StartEntry) {
                Ok((count, FillPairLayout::Flat, separated.group_modes))
            } else {
                proof {
                    lemma_fits_entry_size(options, separated, PrintMode::Flat);
                }
                match fits_entry(options, separated, PrintMode::Flat) {
                    Err(stop) => Err(stop.with(stop.left().group_modes)),
                    Ok((false, after)) => Ok(
                        (count, FillPairLayout::ItemFlatSeparatorExpanded, after.group_modes),
                    ),
                    Ok((true, after)) => if count == usize::MAX {
                        Err(Stop::Unsupported)
                    } else {
                        flat_pairs(options, after, count + 1)
                    },
                }
            },
        }
    }
}

/// What measuring a fill starts with: nothing may be expanded.
pub open spec fn measuring_flat(machine: Machine) -> FitsView {
    measuring(machine.state, machine.stack, machine.indents, machine.queue, true)
}

/// How many pairs of items and separators fit on the line, and how to print the pair behind them.
pub open spec fn pairs_layout(options: PrinterOptions, view: FitsView) -> Result<
    (nat, FillPairLayout, Map<GroupId, PrintMode>),
    Stop<Map<GroupId, PrintMode>>,
> {
    match fits_entry(options, view, PrintMode::Flat) {
        Err(stop) => Err(stop.with(stop.left().group_modes)),
        Ok((false, after)) => Ok((0, FillPairLayout::Expanded, after.group_modes)),
        Ok((true, after)) => flat_pairs(options, after, 0),
    }
}

/// How many pairs of items and separators of a fill fit on the line, and how to print the pair
/// behind them.
pub open spec fn fill_layout(options: PrinterOptions, machine: Machine) -> Result<
    (nat, FillPairLayout, Map<GroupId, PrintMode>),
    Stop<Map<GroupId, PrintMode>>,
> {
    pairs_layout(options, measuring_flat(machine))
}

/// The mode to print an item that fits in, where its separator does not fit in flat mode: flat if
/// the separator fits in expanded mode.
pub open spec fn mode_before_separator(options: PrinterOptions, view: FitsView) -> Result<
    (PrintMode, Map<GroupId, PrintMode>),
    Stop<Map<GroupId, PrintMode>>,
> {
    match fits_entry(options, view, PrintMode::Flat) {
        Err(stop) => Err(stop.with(stop.left().group_modes)),
        Ok((false, _)) => Err(Stop::Unsupported),
        Ok((true, after)) => match fits_entry(options, after, PrintMode::Expanded) {
            Err(stop) => Err(stop.with(stop.left().group_modes)),
            Ok((true, end)) => Ok((PrintMode::Flat, end.group_modes)),
            Ok((false, end)) => Ok((PrintMode::Expanded, end.group_modes)),
        },
    }
}

/// The mode to print the item of a pair in, and the modes of the groups after finding out.
pub open spec fn item_mode(
    options: PrinterOptions,
    machine: Machine,
    layout: FillPairLayout,
) -> Result<(PrintMode, Map<GroupId, PrintMode>), Stop<Map<GroupId, PrintMode>>> {
    match layout {
        FillPairLayout::Flat | FillPairLayout::ItemFlatSeparatorExpanded => Ok(
            (PrintMode::Flat, machine.state.group_modes),
        ),
        FillPairLayout::Expanded => Ok((PrintMode::Expanded, machine.state.group_modes)),
        FillPairLayout::ItemMaybeFlat => mode_before_separator(options, measuring_flat(machine)),
    }
}

/// The mode to print the separator of a pair in.
pub open spec fn separator_mode(layout: FillPairLayout) -> PrintMode {
    if layout == FillPairLayout::Flat {
        PrintMode::Flat
    } else {
        PrintMode::Expanded
    }
}

/// The outcome, if less than `before` is left to print. Printing never gets to anything else.
pub open spec fn advanced(before: Remaining, outcome: Outcome) -> Outcome {
    match outcome {
        Ok(after) => if after.remaining().less(before) {
            Ok(after)
        } else {
            Err(Stop::Unsupported)
        },
        Err(stop) => Err(stop),
    }
}

/// The outcome, if no more than `before` is left to print. Printing never gets to anything else.
pub open spec fn not_behind(before: Remaining, outcome: Outcome) -> Outcome {
    match outcome {
        Ok(after) => if after.remaining().at_most(before) {
            Ok(after)
        } else {
            Err(Stop::Unsupported)
        },
        Err(stop) => Err(stop),
    }
}

/// Prints a single element, or as much of it as is not queued.
pub open spec fn print_element(
    options: PrinterOptions,
    machine: Machine,
    element: FormatElement,
) -> Outcome
    decreases
        machine.remaining_with(element).suffixes,
        machine.remaining_with(element).pending,
        machine.remaining_with(element).size,
        0nat,
{
    match element {
        FormatElement::BestFitting(best_fitting) => {
            proof {
                lemma_best_variant(options, machine, best_fitting);
            }
            match best_variant(options, machine, best_fitting) {
                Err(stop) => Err(stop),
                Ok((after, variant, args)) => print_entry(options, after.queueing(variant), args),
            }
        },
        FormatElement::Tag(Tag::StartFill) => {
            let args = top_args(machine.stack);
            if machine.state.measured_group_fits && args.mode == PrintMode::Flat {
                Ok(machine.entering(TagKind::Fill, args))
            } else {
                proof {
                    lemma_element_counts(element);
                }
                print_fill(options, machine.entering(TagKind::Fill, args), args)
            }
        },
        _ => print_plain(options, machine, element),
    }
}

/// Prints the next entry with the given arguments.
pub open spec fn print_entry(options: PrinterOptions, machine: Machine, args: PrintElementArgs) -> Outcome
    decreases
        machine.remaining().suffixes,
        machine.remaining().pending,
        machine.remaining().size,
        2nat,
{
    if !next_is(machine.queue, Tag::StartEntry) {
        Err(Stop::Error(start_error(TagKind::Entry, top_element(machine.queue)), machine))
    } else {
        print_entry_rest(options, machine, args, 0)
    }
}

/// Prints an entry up to its end, where `depth` entries are open.
pub open spec fn print_entry_rest(
    options: PrinterOptions,
    machine: Machine,
    args: PrintElementArgs,
    depth: nat,
) -> Outcome
    decreases
        machine.remaining().suffixes,
        machine.remaining().pending,
        machine.remaining().size,
        1nat,
{
    if machine.queue.len() == 0 {
        Err(Stop::Error(end_error(TagKind::Entry, top_kind(machine.stack)), machine))
    } else {
        let element = machine.queue[0];
        let popped = machine.popped();
        proof {
            lemma_popped_remaining(machine);
        }
        match element {
            FormatElement::Tag(Tag::StartEntry) if depth == 0 => print_entry_rest(
                options,
                popped.entering(TagKind::Entry, args),
                args,
                1,
            ),
            FormatElement::Tag(Tag::StartEntry) if depth >= i32::MAX => Err(Stop::Unsupported),
            FormatElement::Tag(Tag::EndEntry) if depth <= 1 => popped.leaving(TagKind::Entry),
            _ => match advanced(
                machine.remaining(),
                print_element(options, popped, element),
            ) {
                Err(stop) => Err(stop),
                Ok(after) => print_entry_rest(options, after, args, depth_behind(element, depth)),
            },
        }
    }
}

/// The number of open entries behind an element.
pub open spec fn depth_behind(element: FormatElement, depth: nat) -> nat {
    match element {
        FormatElement::Tag(Tag::StartEntry) => depth + 1,
        FormatElement::Tag(Tag::EndEntry) if depth > 0 => (depth - 1) as nat,
        _ => depth,
    }
}

/// Prints the entries of a fill up to its end.
pub open spec fn print_fill(options: PrinterOptions, machine: Machine, args: PrintElementArgs) -> Outcome
    decreases
        machine.remaining().suffixes,
        machine.remaining().pending,
        machine.remaining().size,
        6nat,
{
    if next_is(machine.queue, Tag::StartEntry) {
        match advanced(machine.remaining(), print_fill_line(options, machine, args)) {
            Err(stop) => Err(stop),
            Ok(after) => print_fill(options, after, args),
        }
    } else if next_is(machine.queue, Tag::EndFill) {
        Ok(machine)
    } else {
        Err(Stop::Error(end_error(TagKind::Fill, top_kind(machine.stack)), machine))
    }
}

/// Prints the pairs of a fill that fit on the line, and one more.
pub open spec fn print_fill_line(
    options: PrinterOptions,
    machine: Machine,
    args: PrintElementArgs,
) -> Outcome
    decreases
        machine.remaining().suffixes,
        machine.remaining().pending,
        machine.remaining().size,
        5nat,
{
    match fill_layout(options, machine) {
        Err(stop) => Err(stop.with(machine.with_group_modes(stop.left()))),
        Ok((pairs, layout, group_modes)) => {
            let start = machine.with_group_modes(group_modes).with_measured(true);
            match not_behind(
                start.remaining(),
                print_flat_pairs(options, start, args.in_mode(PrintMode::Flat), pairs),
            ) {
                Err(stop) => Err(stop),
                Ok(after) => print_last_pair(options, after, args, layout),
            }
        },
    }
}

/// Prints pairs of items and separators.
pub open spec fn print_flat_pairs(
    options: PrinterOptions,
    machine: Machine,
    args: PrintElementArgs,
    count: nat,
) -> Outcome
    decreases
        machine.remaining().suffixes,
        machine.remaining().pending,
        machine.remaining().size,
        3nat,
{
    if count == 0 {
        Ok(machine)
    } else {
        match advanced(machine.remaining(), print_entry(options, machine, args)) {
            Err(stop) => Err(stop),
            Ok(item) => match advanced(item.remaining(), print_entry(options, item, args)) {
                Err(stop) => Err(stop),
                Ok(separator) => print_flat_pairs(options, separator, args, (count - 1) as nat),
            },
        }
    }
}

/// Prints the last pair of a line of a fill, or the last item of the fill.
pub open spec fn print_last_pair(
    options: PrinterOptions,
    machine: Machine,
    args: PrintElementArgs,
    layout: FillPairLayout,
) -> Outcome
    decreases
        machine.remaining().suffixes,
        machine.remaining().pending,
        machine.remaining().size,
        4nat,
{
    match item_mode(options, machine, layout) {
        Err(stop) => Err(stop.with(machine.with_group_modes(stop.left()))),
        Ok((mode, group_modes)) => match advanced(
            machine.remaining(),
            print_entry(options, machine.with_group_modes(group_modes), args.in_mode(mode)),
        ) {
            Err(stop) => Err(stop),
            Ok(item) => if next_is(item.queue, Tag::StartEntry) {
                match print_entry(
                    options,
                    item.entering(TagKind::Fill, args.in_mode(PrintMode::Flat)),
                    args.in_mode(separator_mode(layout)),
                ) {
                    Err(stop) => Err(stop),
                    Ok(separator) => separator.leaving(TagKind::Fill),
                }
            } else {
                Ok(item)
            },
        },
    }
}

/// Taking the first element of the queue leaves what remains without it.
pub proof fn lemma_popped_remaining(machine: Machine)
    requires
        machine.queue.len() > 0,
    ensures
        machine.popped().remaining_with(machine.queue[0]) == machine.remaining(),
        machine.popped().remaining().less(machine.remaining()),
{
    lemma_first_counts(machine.queue);
    lemma_element_counts(machine.queue[0]);
}

/// Printing an element leaves less to print.
pub proof fn lemma_element_progress(
    options: PrinterOptions,
    machine: Machine,
    element: FormatElement,
)
    ensures
        print_element(options, machine, element) matches Ok(after) ==> after.remaining().less(
            machine.remaining_with(element),
        ),
{
    match element {
        FormatElement::BestFitting(best_fitting) => {
            lemma_best_variant(options, machine, best_fitting);
            if let Ok((after, variant, args)) = best_variant(options, machine, best_fitting) {
                lemma_entry_progress(options, after.queueing(variant), args);
            }
        },
        FormatElement::Tag(Tag::StartFill) => {
            let args = top_args(machine.stack);
            lemma_element_counts(element);
            lemma_fill_progress(options, machine.entering(TagKind::Fill, args), args);
        },
        _ => {
            lemma_plain_progress(options, machine, element);
        },
    }
}

/// Printing an entry leaves less to print.
pub proof fn lemma_entry_progress(
    options: PrinterOptions,
    machine: Machine,
    args: PrintElementArgs,
)
    ensures
        print_entry(options, machine, args) matches Ok(after) ==> after.remaining().less(
            machine.remaining(),
        ),
{
    lemma_entry_rest_progress(options, machine, args, 0);
}

/// Printing an entry up to its end leaves less to print.
pub proof fn lemma_entry_rest_progress(
    options: PrinterOptions,
    machine: Machine,
    args: PrintElementArgs,
    depth: nat,
)
    ensures
        print_entry_rest(options, machine, args, depth) matches Ok(after) ==> after.remaining().less(
            machine.remaining(),
        ),
    decreases
        machine.remaining().suffixes,
        machine.remaining().pending,
        machine.remaining().size,
{
    if machine.queue.len() > 0 {
        let element = machine.queue[0];
        let popped = machine.popped();
        lemma_popped_remaining(machine);
        lemma_entry_rest_progress(options, popped.entering(TagKind::Entry, args), args, 1);
        if let Ok(after) = advanced(machine.remaining(), print_element(options, popped, element)) {
            lemma_entry_rest_progress(options, after, args, depth_behind(element, depth));
        }
    }
}

/// Printing the entries of a fill leaves no more to print.
pub proof fn lemma_fill_progress(options: PrinterOptions, machine: Machine, args: PrintElementArgs)
    ensures
        print_fill(options, machine, args) matches Ok(after) ==> after.remaining().at_most(
            machine.remaining(),
        ),
    decreases
        machine.remaining().suffixes,
        machine.remaining().pending,
        machine.remaining().size,
{
    if let Ok(after) = advanced(machine.remaining(), print_fill_line(options, machine, args)) {
        lemma_fill_progress(options, after, args);
    }
}

/// Printing a line of a fill leaves less to print.
pub proof fn lemma_fill_line_progress(
    options: PrinterOptions,
    machine: Machine,
    args: PrintElementArgs,
)
    ensures
        print_fill_line(options, machine, args) matches Ok(after) ==> after.remaining().less(
            machine.remaining(),
        ),
{
    if let Ok((pairs, layout, group_modes)) = fill_layout(options, machine) {
        let start = machine.with_group_modes(group_modes).with_measured(true);
        if let Ok(after) = not_behind(
            start.remaining(),
            print_flat_pairs(options, start, args.in_mode(PrintMode::Flat), pairs),
        ) {
            lemma_last_pair_progress(options, after, args, layout);
        }
    }
}

/// Printing pairs of a fill leaves no more to print.
pub proof fn lemma_flat_pairs_progress(
    options: PrinterOptions,
    machine: Machine,
    args: PrintElementArgs,
    count: nat,
)
    ensures
        print_flat_pairs(options, machine, args, count) matches Ok(after)
            ==> after.remaining().at_most(machine.remaining()),
    decreases count,
{
    if count > 0 {
        if let Ok(item) = advanced(machine.remaining(), print_entry(options, machine, args)) {
            if let Ok(separator) = advanced(item.remaining(), print_entry(options, item, args)) {
                lemma_flat_pairs_progress(options, separator, args, (count - 1) as nat);
            }
        }
    }
}

/// Printing the last pair of a line of a fill leaves less to print.
pub proof fn lemma_last_pair_progress(
    options: PrinterOptions,
    machine: Machine,
    args: PrintElementArgs,
    layout: FillPairLayout,
)
    ensures
        print_last_pair(options, machine, args, layout) matches Ok(after) ==> after.remaining().less(
            machine.remaining(),
        ),
{
    if let Ok((mode, group_modes)) = item_mode(options, machine, layout) {
        if let Ok(item) = advanced(
            machine.remaining(),
            print_entry(options, machine.with_group_modes(group_modes), args.in_mode(mode)),
        ) {
            let start = item.entering(TagKind::Fill, args.in_mode(PrintMode::Flat));
            assert(start.remaining() == item.remaining());
            lemma_entry_progress(options, start, args.in_mode(separator_mode(layout)));
        }
    }
}

/// The pending line suffixes are queued where nothing else is.
pub open spec fn at_end(machine: Machine) -> Machine {
    if machine.queue.len() == 0 {
        flushed(machine, None)
    } else {
        machine
    }
}

/// Prints a single element. The pending line suffixes are queued if it was the last one.
#[verifier::opaque]
pub open spec fn print_next(
    options: PrinterOptions,
    machine: Machine,
    element: FormatElement,
) -> Outcome {
    match print_element(options, machine, element) {
        Err(stop) => Err(stop),
        Ok(after) => Ok(at_end(after)),
    }
}

/// Printing the next element leaves less to print.
pub proof fn lemma_next_progress(options: PrinterOptions, machine: Machine)
    requires
        machine.queue.len() > 0,
    ensures
        print_next(options, machine.popped(), machine.queue[0]) matches Ok(after)
            ==> after.remaining().less(machine.remaining()),
{
    reveal(print_next);
    lemma_popped_remaining(machine);
    lemma_element_progress(options, machine.popped(), machine.queue[0]);
    if let Ok(after) = print_element(options, machine.popped(), machine.queue[0]) {
        lemma_flushed_remaining(after, None);
    }
}

/// Prints all that is queued.
pub open spec fn print_queue(options: PrinterOptions, machine: Machine) -> Outcome
    decreases
        machine.remaining().suffixes,
        machine.remaining().pending,
        machine.remaining().size,
{
    if machine.queue.len() == 0 {
        Ok(machine)
    } else {
        proof {
            lemma_next_progress(options, machine);
        }
        match print_next(options, machine.popped(), machine.queue[0]) {
            Err(stop) => Err(stop),
            Ok(after) => print_queue(options, after),
        }
    }
}

/// Where printing a document starts.
pub open spec fn starting(state: StateView, document: Seq<FormatElement>, indent: u16) -> Machine {
    Machine {
        state,
        stack: seq![
            StackFrame {
                kind: StackFrameKind::Root,
                args: PrintElementArgs { mode: PrintMode::Expanded },
            },
        ],
        indents: PrintIndentView {
            stack: IndentView {
                indentions: seq![Indention::Level(indent)],
                history: Seq::empty(),
            },
            suffixes: Seq::empty(),
        },
        queue: document,
    }
}

/// What printing a document leads to, where the printer is in the given state before.
pub open spec fn printed_document(
    options: PrinterOptions,
    state: StateView,
    document: Seq<FormatElement>,
    indent: u16,
) -> Result<PrintedView, Halt> {
    match print_queue(options, starting(state, document, indent)) {
        Err(stop) => Err(stop.halt()),
        Ok(machine) => Ok(
            PrintedView {
                code: machine.state.buffer,
                range: None,
                sourcemap: machine.state.source_markers,
                verbatim_ranges: machine.state.verbatim_markers,
            },
        ),
    }
}

} // verus!
