//! Which variant of a best fitting element is printed.

use crate::format_element::{BestFittingElement, FormatElement};
use crate::options::PrinterOptions;
use crate::printer::call_stack::{top_args, PrintElementArgs, StackFrame, StackFrameKind};
use crate::printer::fits::{fits_content, fits_element, measuring, Fits, FitsEnd, FitsView};
use crate::printer::machine::Machine;
use crate::printer::outcome::{chosen_variant, print_element, print_entry, variant_fits};
use crate::printer::state::{StateView, Stop};
use crate::tag::{GroupId, PrintMode, Tag, TagKind};
use vstd::prelude::*;

verus! {

/// The machine that knows the given modes of the groups and is about to print the variant.
pub open spec fn about_to_print(
    machine: Machine,
    group_modes: Map<GroupId, PrintMode>,
    variant: Seq<FormatElement>,
) -> Machine {
    Machine {
        state: StateView { measured_group_fits: true, group_modes, ..machine.state },
        queue: variant + machine.queue,
        ..machine
    }
}

/// What measuring a variant in flat mode starts with: the content of the entry comes next, inside of
/// an entry in flat mode, and all that comes behind the element comes behind it.
pub open spec fn measuring_variant(
    machine: Machine,
    group_modes: Map<GroupId, PrintMode>,
    variant: Seq<FormatElement>,
) -> FitsView {
    FitsView {
        pending_indent: machine.state.pending_indent,
        pending_space: machine.state.pending_space,
        has_line_suffix: machine.state.line_suffixes.len() > 0,
        line_width: machine.state.line_width,
        queue: variant.drop_first() + machine.queue,
        stack: machine.stack.push(
            StackFrame {
                kind: StackFrameKind::Tag(TagKind::Entry),
                args: PrintElementArgs { mode: PrintMode::Flat },
            },
        ),
        indents: machine.indents.stack,
        group_modes,
        must_be_flat: false,
    }
}

/// Whether measuring the variant in flat mode gives the answer, and leads from one set of modes of
/// the groups to the other.
pub open spec fn is_measured(
    options: PrinterOptions,
    machine: Machine,
    variant: Seq<FormatElement>,
    before: Map<GroupId, PrintMode>,
    fits: bool,
    after: Map<GroupId, PrintMode>,
) -> bool {
    &&& variant.len() > 1
    &&& variant[0] == FormatElement::Tag(Tag::StartEntry)
    &&& fits_content(
        options,
        measuring_variant(machine, before, variant),
        FitsEnd::Document,
    ) matches Ok((answer, end, _)) && answer == fits && end.group_modes == after
}

/// Whether none of the first variants fits, with the modes of the groups before the first of them
/// and behind each of them.
pub open spec fn none_fits(
    options: PrinterOptions,
    machine: Machine,
    best_fitting: BestFittingElement,
    modes: Seq<Map<GroupId, PrintMode>>,
) -> bool {
    &&& modes.len() > 0
    &&& modes.len() <= best_fitting.layouts().len()
    &&& modes[0] == machine.state.group_modes
    &&& forall|i: int|
        0 <= i < modes.len() - 1 ==> is_measured(
            options,
            machine,
            (#[trigger] best_fitting.layouts()[i])@,
            modes[i],
            false,
            modes[i + 1],
        )
}

proof fn lemma_measured_variant(
    options: PrinterOptions,
    machine: Machine,
    variant: Seq<FormatElement>,
    before: Map<GroupId, PrintMode>,
    fits: bool,
    after: Map<GroupId, PrintMode>,
)
    requires
        is_measured(options, machine, variant, before, fits, after),
    ensures
        variant_fits(
            options,
            machine.with_measured(true).with_group_modes(before),
            variant,
        ) == Ok::<_, Stop<Machine>>((fits, after)),
{
    let start = machine.with_measured(true).with_group_modes(before);
    let flat = top_args(start.stack).in_mode(PrintMode::Flat);
    let inside = start.queueing(variant.drop_first()).entering(TagKind::Entry, flat);
    assert(measuring(inside.state, inside.stack, inside.indents, inside.queue, false)
        =~= measuring_variant(machine, before, variant));
}

/// The variants that do not fit are passed over.
proof fn lemma_passed_over(
    options: PrinterOptions,
    machine: Machine,
    best_fitting: BestFittingElement,
    modes: Seq<Map<GroupId, PrintMode>>,
    index: int,
)
    requires
        none_fits(options, machine, best_fitting, modes),
        0 <= index < modes.len(),
    ensures
        ({
            let start = machine.with_measured(true);
            chosen_variant(options, start, best_fitting, 0) == chosen_variant(
                options,
                start.with_group_modes(modes[index]),
                best_fitting,
                index,
            )
        }),
    decreases index,
{
    let start = machine.with_measured(true);
    if index == 0 {
        assert(start.with_group_modes(modes[0]) == start);
    } else {
        lemma_passed_over(options, machine, best_fitting, modes, index - 1);
        let before = start.with_group_modes(modes[index - 1]);
        let variant = best_fitting.layouts()[index - 1]@;
        lemma_measured_variant(options, machine, variant, modes[index - 1], false, modes[index]);
        assert(before.with_group_modes(modes[index]) == start.with_group_modes(modes[index]));
    }
}

/// The first variant that fits on the line in flat mode is printed, as an entry in flat mode. The
/// variants before it leave nothing behind but the modes of the groups in them.
pub proof fn lemma_first_variant_that_fits(
    options: PrinterOptions,
    machine: Machine,
    best_fitting: BestFittingElement,
    modes: Seq<Map<GroupId, PrintMode>>,
    measured_modes: Map<GroupId, PrintMode>,
)
    requires
        !(machine.stack.last().args.mode == PrintMode::Flat && machine.state.measured_group_fits),
        none_fits(options, machine, best_fitting, modes),
        modes.len() < best_fitting.layouts().len(),
        is_measured(
            options,
            machine,
            best_fitting.layouts()[modes.len() - 1]@,
            modes.last(),
            true,
            measured_modes,
        ),
    ensures
        print_element(options, machine, FormatElement::BestFitting(best_fitting)) == print_entry(
            options,
            about_to_print(
                machine,
                measured_modes,
                best_fitting.layouts()[modes.len() - 1]@,
            ),
            PrintElementArgs { mode: PrintMode::Flat },
        ),
{
    let index = modes.len() - 1;
    let start = machine.with_measured(true);
    let variant = best_fitting.layouts()[index]@;
    lemma_passed_over(options, machine, best_fitting, modes, index);
    lemma_measured_variant(options, machine, variant, modes[index], true, measured_modes);
    let chosen = start.with_group_modes(modes[index]).with_group_modes(measured_modes);
    assert(chosen.queueing(variant) =~= about_to_print(machine, measured_modes, variant));
}

/// If no variant but the last is left, the last one is printed, as an entry in expanded mode.
pub proof fn lemma_last_variant(
    options: PrinterOptions,
    machine: Machine,
    best_fitting: BestFittingElement,
    modes: Seq<Map<GroupId, PrintMode>>,
)
    requires
        !(machine.stack.last().args.mode == PrintMode::Flat && machine.state.measured_group_fits),
        none_fits(options, machine, best_fitting, modes),
        modes.len() == best_fitting.layouts().len(),
    ensures
        print_element(options, machine, FormatElement::BestFitting(best_fitting)) == print_entry(
            options,
            about_to_print(machine, modes.last(), best_fitting.layouts().last()@),
            PrintElementArgs { mode: PrintMode::Expanded },
        ),
{
    let index = modes.len() - 1;
    let start = machine.with_measured(true);
    lemma_passed_over(options, machine, best_fitting, modes, index);
    assert(start.with_group_modes(modes[index]).queueing(best_fitting.layouts().last()@)
        =~= about_to_print(machine, modes.last(), best_fitting.layouts().last()@));
}

/// Where everything is known to fit in flat mode, the first variant is printed in flat mode without
/// measuring it.
pub proof fn lemma_first_variant_in_flat_content(
    options: PrinterOptions,
    machine: Machine,
    best_fitting: BestFittingElement,
)
    requires
        machine.stack.last().args.mode == PrintMode::Flat,
        machine.state.measured_group_fits,
        best_fitting.layouts().len() > 0,
    ensures
        print_element(options, machine, FormatElement::BestFitting(best_fitting)) == print_entry(
            options,
            about_to_print(
                machine,
                machine.state.group_modes,
                best_fitting.layouts()[0]@,
            ),
            PrintElementArgs { mode: PrintMode::Flat },
        ),
{
    assert(machine.queueing(best_fitting.layouts()[0]@) =~= about_to_print(
        machine,
        machine.state.group_modes,
        best_fitting.layouts()[0]@,
    ));
}

/// Measuring a best fitting element goes on with its first variant in flat mode, and with its last
/// one in expanded mode.
pub proof fn lemma_measured_variants(
    options: PrinterOptions,
    view: FitsView,
    best_fitting: BestFittingElement,
)
    requires
        best_fitting.layouts().len() > 0,
        best_fitting.layouts().first()@.len() > 0,
        best_fitting.layouts().first()@[0] == FormatElement::Tag(Tag::StartEntry),
        best_fitting.layouts().last()@.len() > 0,
        best_fitting.layouts().last()@[0] == FormatElement::Tag(Tag::StartEntry),
    ensures
        fits_element(options, view, FormatElement::BestFitting(best_fitting)) == Ok::<
            (Fits, FitsView),
            Stop<FitsView>,
        >(
            (
                Fits::Maybe,
                (FitsView {
                    queue: (if view.stack.last().args.mode == PrintMode::Flat {
                        best_fitting.layouts().first()@
                    } else {
                        best_fitting.layouts().last()@
                    }) + view.queue,
                    ..view
                }),
            ),
        ),
{
}

/// A variant that cannot be measured stops printing with the error that measuring it gives. No variant
/// behind it is tried.
pub proof fn lemma_variant_with_error(
    options: PrinterOptions,
    machine: Machine,
    best_fitting: BestFittingElement,
    modes: Seq<Map<GroupId, PrintMode>>,
    stop: Stop<(FitsView, FitsEnd)>,
)
    requires
        !(machine.stack.last().args.mode == PrintMode::Flat && machine.state.measured_group_fits),
        none_fits(options, machine, best_fitting, modes),
        modes.len() < best_fitting.layouts().len(),
        best_fitting.layouts()[modes.len() - 1]@.len() > 1,
        best_fitting.layouts()[modes.len() - 1]@[0] == FormatElement::Tag(Tag::StartEntry),
        fits_content(
            options,
            measuring_variant(
                machine,
                modes.last(),
                best_fitting.layouts()[modes.len() - 1]@,
            ),
            FitsEnd::Document,
        ) == Err::<(bool, FitsView, FitsEnd), _>(stop),
    ensures
        print_element(options, machine, FormatElement::BestFitting(best_fitting)) matches Err(other)
            && other.halt() == stop.halt(),
{
    let index = modes.len() - 1;
    let variant = best_fitting.layouts()[index]@;
    let start = machine.with_measured(true).with_group_modes(modes[index]);
    lemma_passed_over(options, machine, best_fitting, modes, index);
    let flat = top_args(start.stack).in_mode(PrintMode::Flat);
    let inside = start.queueing(variant.drop_first()).entering(TagKind::Entry, flat);
    assert(measuring(inside.state, inside.stack, inside.indents, inside.queue, false)
        =~= measuring_variant(machine, modes[index], variant));
}

} // verus!
