//! What a malformed document leaves behind: everything is as it was where the error was found.

use crate::format_element::{BestFittingElement, FormatElement};
use crate::options::PrinterOptions;
use crate::printer::call_stack::{
    frames_left, pop_frame, push_frame, top_args, top_kind, PrintElementArgs,
};
use crate::printer::fits::{
    end_follows, fits_content, fits_element, fits_end, fits_entry, FitsEnd, FitsView,
};
use crate::printer::invalid::{end_error, start_error};
use crate::printer::machine::{print_end, Machine};
use crate::printer::outcome::{chosen_variant, print_element, print_entry, print_fill};
use crate::printer::queue::{next_is, top_element};
use crate::printer::state::Stop;
use crate::tag::{PrintMode, Tag, TagKind};
use vstd::prelude::*;

verus! {

/// Where no entry starts, none is printed: nothing changes.
pub proof fn lemma_no_start_of_entry(
    options: PrinterOptions,
    machine: Machine,
    args: PrintElementArgs,
)
    requires
        !next_is(machine.queue, Tag::StartEntry),
    ensures
        print_entry(options, machine, args) == Err::<Machine, Stop<Machine>>(
            Stop::Error(start_error(TagKind::Entry, top_element(machine.queue)), machine),
        ),
{
}

/// A fill without entries and without an end prints nothing. Only the fill itself has started.
pub proof fn lemma_no_end_of_fill(options: PrinterOptions, machine: Machine)
    requires
        !next_is(machine.queue, Tag::StartEntry),
        !next_is(machine.queue, Tag::EndFill),
        !(machine.state.measured_group_fits && machine.mode() == PrintMode::Flat),
    ensures
        print_element(options, machine, FormatElement::Tag(Tag::StartFill)) == Err::<
            Machine,
            Stop<Machine>,
        >(
            Stop::Error(
                end_error(TagKind::Fill, Some(TagKind::Fill)),
                machine.entering(TagKind::Fill, top_args(machine.stack)),
            ),
        ),
{
    let inside = machine.entering(TagKind::Fill, top_args(machine.stack));
    assert(top_kind(inside.stack) == Some(TagKind::Fill));
}

/// A fill whose entries were printed, but that does not end behind them, leaves what was printed.
pub proof fn lemma_fill_goes_no_further(
    options: PrinterOptions,
    machine: Machine,
    args: PrintElementArgs,
)
    requires
        !next_is(machine.queue, Tag::StartEntry),
        !next_is(machine.queue, Tag::EndFill),
    ensures
        print_fill(options, machine, args) == Err::<Machine, Stop<Machine>>(
            Stop::Error(end_error(TagKind::Fill, top_kind(machine.stack)), machine),
        ),
{
}

/// An end tag of another kind than the innermost part prints nothing and takes nothing from the
/// queue.
pub proof fn lemma_mismatched_end(machine: Machine, tag: Tag)
    requires
        !tag.starts(),
        pop_frame(machine.stack, tag.marks()) is Err,
    ensures
        print_end(machine, tag) is Err,
        print_end(machine, tag) matches Err(Stop::Error(error, left)) ==> {
            &&& pop_frame(machine.stack, tag.marks()) matches Err(expected) && error == expected
            &&& left.state == machine.state
            &&& left.queue == machine.queue
            &&& left.stack == frames_left(machine.stack)
        },
{
}

/// A variant that is no entry stops the choice before anything is printed, queued or pushed.
pub proof fn lemma_variant_is_no_entry(
    options: PrinterOptions,
    machine: Machine,
    best_fitting: BestFittingElement,
    index: int,
)
    requires
        0 <= index < best_fitting.layouts().len() - 1,
        best_fitting.layouts()[index]@.len() > 0 ==> best_fitting.layouts()[index]@[0]
            != FormatElement::Tag(Tag::StartEntry),
    ensures
        chosen_variant(options, machine, best_fitting, index) matches Err(Stop::Error(_, left))
            && left == machine,
{
}

/// Measuring stops at an end tag of another kind than the innermost part without taking anything
/// from the queue.
pub proof fn lemma_mismatched_end_measured(view: FitsView, tag: Tag)
    requires
        !tag.starts(),
        tag != Tag::EndLineSuffix,
        pop_frame(view.stack, tag.marks()) is Err,
    ensures
        fits_end(view, tag) matches Err(Stop::Error(error, left)) && {
            &&& pop_frame(view.stack, tag.marks()) matches Err(expected) && error == expected
            &&& left.queue == view.queue
            &&& left.stack == frames_left(view.stack)
            &&& left.line_width == view.line_width
        },
{
}

/// Measuring stops at a variant that is no entry without a change.
pub proof fn lemma_variant_is_not_measured(
    options: PrinterOptions,
    view: FitsView,
    best_fitting: BestFittingElement,
)
    requires
        best_fitting.layouts().len() > 0,
        ({
            let variant = match top_args(view.stack).mode {
                PrintMode::Flat => best_fitting.layouts().first()@,
                PrintMode::Expanded => best_fitting.layouts().last()@,
            };
            variant.len() > 0 ==> variant[0] != FormatElement::Tag(Tag::StartEntry)
        }),
    ensures
        fits_element(options, view, FormatElement::BestFitting(best_fitting)) matches Err(
            Stop::Error(_, left),
        ) && left == view,
{
}

/// An entry whose end is missing is not measured: wherever measuring stops before the end of the
/// entry, the end must follow.
pub proof fn lemma_no_end_of_entry(
    options: PrinterOptions,
    view: FitsView,
    mode: PrintMode,
    fits: bool,
    after: FitsView,
    end: FitsEnd,
)
    requires
        next_is(view.queue, Tag::StartEntry),
        fits_content(
            options,
            (FitsView {
                stack: push_frame(
                    view.stack,
                    TagKind::Fill,
                    top_args(view.stack).in_mode(mode),
                ),
                ..view
            }),
            FitsEnd::Entry { depth: 0 },
        ) == Ok::<_, Stop<(FitsView, FitsEnd)>>((fits, after, end)),
        end_follows(end, after.queue) == Some(false),
    ensures
        fits_entry(options, view, mode) == Err::<(bool, FitsView), Stop<FitsView>>(
            Stop::Error(end_error(TagKind::Entry, top_kind(after.stack)), after),
        ),
{
}

} // verus!
