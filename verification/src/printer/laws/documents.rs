//! Documents whose parts nest are printed without an error.

use crate::format_element::{BestFittingElement, FormatElement, LineMode};
use crate::options::PrinterOptions;
use crate::printer::call_stack::{
    push_frame, top_args, PrintElementArgs, StackFrame, StackFrameKind,
};
use crate::printer::fits::{measured, measuring, FitsView};
use crate::printer::laws::layout::{
    entry_ends_at, entry_length, fill_follows, is_quiet, lays_out, lemma_layout_behind_entry,
    lemma_layout_concat, lemma_layout_split, lemma_quiet_concat, lemma_variant_lays_out,
    may_be_flat, variants_lay_out,
};
use crate::printer::laws::lines::lemma_elements_queued;
use crate::printer::laws::measuring::{
    behind_entries, entries_follow, item_fits, lemma_document_measures, lemma_mode_before_separator,
    lemma_next_of_fill, lemma_pairs_measure, lemma_push_no_suffix, lemma_push_open, measures_part,
};
use crate::printer::laws::nesting::{
    closes, count_of, is_open, lemma_closes_concat, lemma_entries_in_open,
    lemma_entries_queued_apart, lemma_entries_queued_concat, lemma_entry_inside,
    lemma_entry_rest_step, line_suffixes, open_behind, pending_closes,
};
use crate::printer::line_suffixes::{suffix_entries, SuffixEntry};
use crate::printer::machine::{
    entries_queued, fits_on_line, flushed, has_entries, lemma_break_keeps_suffixes,
    lemma_text_keeps_suffixes, print_end, print_line, print_plain, print_start, with_group_mode,
    with_state, Machine, Outcome,
};
use crate::printer::outcome::{
    advanced, at_end, best_variant, chosen_variant, depth_behind, fill_layout, item_mode,
    lemma_best_variant, lemma_chosen_variant, lemma_next_progress, lemma_popped_remaining,
    measuring_flat, not_behind, print_element, print_entry, print_entry_rest, print_fill,
    print_fill_line, print_flat_pairs, print_last_pair, print_next, print_queue, printed_document,
    separator_mode, starting, variant_fits, FillPairLayout,
};
use crate::printer::queue::{next_is, split_content};
use crate::printer::state::{initial_state, Halt};
use crate::printer::text::after_text;
use crate::tag::{Group, GroupMode, PrintMode, Tag, TagKind};
use crate::text_size::TextSize;
use vstd::prelude::*;

verus! {

/// Whether the pending line suffixes make up line suffixes that need no measuring.
pub open spec fn pending_lays_out(entries: Seq<SuffixEntry>) -> bool {
    let (frames, elements) = entries_queued(entries, Seq::empty(), Seq::empty());
    &&& lays_out(elements, line_suffixes(frames.len()))
    &&& is_quiet(elements)
    &&& pending_closes(entries)
}

/// Whether the printer is inside of the given parts of a document, with `part` up to their end. If
/// anything comes behind it, `part` needs no measuring.
pub open spec fn prints_part(
    machine: Machine,
    outer: Seq<StackFrame>,
    open: Seq<TagKind>,
    part: Seq<FormatElement>,
    behind: Seq<FormatElement>,
) -> bool {
    &&& is_open(machine.stack, outer, open)
    &&& machine.queue == part + behind
    &&& lays_out(part, open)
    &&& behind.len() > 0 ==> is_quiet(part)
    &&& pending_lays_out(machine.state.line_suffixes)
}

/// Whether the printer is inside of the given parts of a document.
pub open spec fn prints_document(
    machine: Machine,
    outer: Seq<StackFrame>,
    open: Seq<TagKind>,
) -> bool {
    &&& is_open(machine.stack, outer, open)
    &&& lays_out(machine.queue, open)
    &&& pending_lays_out(machine.state.line_suffixes)
}

/// A document is a part with nothing behind it.
proof fn lemma_document_is_part(
    machine: Machine,
    outer: Seq<StackFrame>,
    open: Seq<TagKind>,
    part: Seq<FormatElement>,
)
    requires
        prints_document(machine, outer, open) && part == machine.queue || prints_part(
            machine,
            outer,
            open,
            part,
            Seq::empty(),
        ),
    ensures
        prints_document(machine, outer, open),
        part == machine.queue,
        prints_part(machine, outer, open, part, Seq::empty()),
{
    assert(part + Seq::<FormatElement>::empty() =~= part);
}

/// Whether what is queued fits is found out without an error.
proof fn lemma_fits_without_error(
    options: PrinterOptions,
    machine: Machine,
    outer: Seq<StackFrame>,
    open: Seq<TagKind>,
)
    requires
        is_open(machine.stack, outer, open),
        lays_out(machine.queue, open),
        !open.contains(TagKind::LineSuffix),
    ensures
        fits_on_line(options, machine) matches Err(stop) ==> stop is Unsupported,
{
    let view = measuring(
        machine.state,
        machine.stack,
        machine.indents,
        machine.queue,
        false,
    );
    assert(view.queue + Seq::<FormatElement>::empty() =~= view.queue);
    assert(measures_part(view, outer, open, view.queue, Seq::empty()));
    lemma_document_measures(options, view, outer, open);
}

/// Another line suffix that needs no measuring keeps the pending ones what they are.
proof fn lemma_pending_layout_extended(
    entries: Seq<SuffixEntry>,
    content: Seq<FormatElement>,
    args: PrintElementArgs,
)
    requires
        pending_lays_out(entries),
        is_quiet(content),
        lays_out(
            content.push(FormatElement::Tag(Tag::EndLineSuffix)),
            seq![TagKind::LineSuffix],
        ),
        closes(
            content.push(FormatElement::Tag(Tag::EndLineSuffix)),
            seq![TagKind::LineSuffix],
        ),
    ensures
        pending_lays_out(entries + suffix_entries(content, args)),
{
    let added = suffix_entries(content, args);
    let end = seq![FormatElement::Tag(Tag::EndLineSuffix)];
    let frame = push_frame(Seq::empty(), TagKind::LineSuffix, args);
    let suffixes = content.map_values(|element: FormatElement| SuffixEntry::Suffix(element));
    assert(added.drop_last() =~= suffixes);
    assert(end + Seq::<FormatElement>::empty() =~= end);
    lemma_elements_queued(content, frame, end);
    assert(entries_queued(added, Seq::empty(), Seq::empty()) == (frame, content + end));
    lemma_entries_queued_concat(
        entries,
        added,
        Seq::empty(),
        Seq::empty(),
    );
    lemma_entries_queued_apart(entries, frame, content + end);
    let (frames, elements) = entries_queued(entries, Seq::empty(), Seq::empty());
    let single = content.push(FormatElement::Tag(Tag::EndLineSuffix));
    assert(content + end =~= single);
    assert(end.drop_first() =~= Seq::empty());
    assert(is_quiet(end.drop_first()));
    lemma_quiet_concat(content, end);
    lemma_quiet_concat(elements, single);
    lemma_layout_concat(
        elements,
        single,
        line_suffixes(frames.len()),
        seq![TagKind::LineSuffix],
    );
    lemma_closes_concat(
        elements,
        single,
        line_suffixes(frames.len()),
        seq![TagKind::LineSuffix],
    );
    assert(seq![TagKind::LineSuffix] + line_suffixes(frames.len()) =~= line_suffixes(
        (frame + frames).len(),
    ));
}

/// Whether printing an element of a document leads to no error, and stays inside of the document.
pub open spec fn goes_well(
    outcome: Outcome,
    element: FormatElement,
    outer: Seq<StackFrame>,
    open: Seq<TagKind>,
    behind: Seq<FormatElement>,
) -> bool {
    match outcome {
        Ok(after) => exists|inside: Seq<TagKind>, next: Seq<FormatElement>|
            open_behind(element, open, inside) && #[trigger] prints_part(
                after,
                outer,
                inside,
                next,
                behind,
            ),
        Err(stop) => stop is Unsupported,
    }
}

/// Flushing the pending line suffixes stays inside of a document.
proof fn lemma_flushed_prints(
    machine: Machine,
    line_break: Option<FormatElement>,
    outer: Seq<StackFrame>,
    open: Seq<TagKind>,
    part: Seq<FormatElement>,
    behind: Seq<FormatElement>,
)
    requires
        prints_part(machine, outer, open, part, behind),
        line_break matches Some(element) ==> element is Line,
    ensures
        goes_well(
            Ok(flushed(machine, line_break)),
            FormatElement::LineSuffixBoundary,
            outer,
            open,
            behind,
        ),
{
    let entries = machine.state.line_suffixes;
    let after = flushed(machine, line_break);
    let boundary = FormatElement::LineSuffixBoundary;
    if entries.len() == 0 {
        assert(open + line_suffixes(0) =~= open);
        assert(open_behind(boundary, open, open));
        assert(prints_part(after, outer, open, part, behind));
    } else {
        let (frames, suffixes) = entries_queued(entries, Seq::empty(), Seq::empty());
        let rest = match line_break {
            Some(element) => seq![element] + part,
            None => part,
        };
        lemma_entries_queued_apart(entries, machine.stack, rest + behind);
        if let Some(element) = line_break {
            assert(rest[0] == element);
            assert(rest.drop_first() =~= part);
            assert(rest + behind =~= seq![element] + machine.queue);
        }
        assert(lays_out(rest, open));
        lemma_layout_concat(suffixes, rest, line_suffixes(frames.len()), open);
        lemma_quiet_concat(suffixes, rest);
        let inside = open + line_suffixes(frames.len());
        assert(entries_queued(Seq::empty(), Seq::empty(), Seq::empty()).1 =~= Seq::empty());
        assert(pending_lays_out(after.state.line_suffixes));
        assert forall|i: int| outer.len() <= i < after.stack.len() implies (
        #[trigger] after.stack[i]).kind == StackFrameKind::Tag(inside[i - outer.len()]) by {
            if i < machine.stack.len() {
                assert(after.stack[i] == machine.stack[i]);
            } else {
                assert(after.stack[i] == frames[i - machine.stack.len()]);
            }
        }
        assert(after.queue =~= (suffixes + rest) + behind);
        assert(open_behind(boundary, open, inside));
        assert(prints_part(after, outer, inside, suffixes + rest, behind));
    }
}

/// Printing the start of a part of a document leads to no error.
proof fn lemma_start_goes_well(
    options: PrinterOptions,
    machine: Machine,
    tag: Tag,
    outer: Seq<StackFrame>,
    open: Seq<TagKind>,
    rest: Seq<FormatElement>,
    behind: Seq<FormatElement>,
)
    requires
        tag.starts(),
        tag != Tag::StartFill,
        may_be_flat(tag) ==> behind.len() == 0 && !open.contains(TagKind::LineSuffix),
        is_open(machine.stack, outer, open),
        machine.queue == rest + behind,
        lays_out(rest, open.push(tag.marks())),
        behind.len() > 0 ==> is_quiet(rest),
        pending_lays_out(machine.state.line_suffixes),
    ensures
        goes_well(
            print_start(options, machine, tag),
            FormatElement::Tag(tag),
            outer,
            open,
            behind,
        ),
{
    let kind = tag.marks();
    let args = top_args(machine.stack);
    let entered = open.push(kind);
    let length = lemma_layout_split(rest, behind, open, kind);
    if let Tag::StartGroup(group) = tag {
        if group.mode == GroupMode::Flat {
            let start = machine.with_measured(true).with_group_modes(
                with_group_mode(
                    machine.state.group_modes,
                    group.id,
                    PrintMode::Flat,
                ),
            );
            let flat = args.in_mode(PrintMode::Flat);
            assert(rest + behind =~= rest);
            lemma_push_open(machine.stack, outer, open, kind, flat);
            lemma_push_no_suffix(open, kind);
            lemma_fits_without_error(
                options,
                start.entering(TagKind::Group, flat),
                outer,
                entered,
            );
        }
    }
    if let Ok(after) = print_start(options, machine, tag) {
        if tag == Tag::StartLineSuffix {
            let (content, left) = split_content(machine.queue, kind, 1)->Some_0;
            lemma_pending_layout_extended(machine.state.line_suffixes, content, args);
            assert(prints_part(after, outer, open, rest.skip(length), behind));
        } else if after.stack == machine.stack {
            assert(prints_part(after, outer, open, rest.skip(length), behind));
        } else {
            let frame = after.stack.last().args;
            assert(after.stack == push_frame(machine.stack, kind, frame));
            lemma_push_open(machine.stack, outer, open, kind, frame);
            assert(after.state.line_suffixes == machine.state.line_suffixes);
            assert(prints_part(after, outer, entered, rest, behind));
        }
    }
}

/// Printing an element of a document that has no entries leads to no error.
proof fn lemma_plain_goes_well(
    options: PrinterOptions,
    machine: Machine,
    outer: Seq<StackFrame>,
    open: Seq<TagKind>,
    part: Seq<FormatElement>,
    behind: Seq<FormatElement>,
)
    requires
        prints_part(machine, outer, open, part, behind),
        part.len() > 0,
        !has_entries(part[0]),
    ensures
        goes_well(
            print_plain(options, machine.popped(), part[0]),
            part[0],
            outer,
            open,
            behind,
        ),
{
    let element = part[0];
    let rest = part.drop_first();
    let popped = machine.popped();
    let none: Seq<TagKind> = Seq::empty();
    assert(popped.queue =~= rest + behind);
    match element {
        FormatElement::StaticText { text } => {
            lemma_text_goes_well(options, popped, element, text@, None, outer, open, rest, behind);
        },
        FormatElement::DynamicText { text, source_position } => {
            lemma_text_goes_well(
                options,
                popped,
                element,
                text@,
                Some(source_position),
                outer,
                open,
                rest,
                behind,
            );
        },
        FormatElement::LocatedTokenText { slice, source_position } => {
            lemma_text_goes_well(
                options,
                popped,
                element,
                slice@,
                Some(source_position),
                outer,
                open,
                rest,
                behind,
            );
        },
        FormatElement::Line(line_mode) => {
            lemma_line_goes_well(options, popped, line_mode, outer, open, rest, behind);
        },
        FormatElement::LineSuffixBoundary => {
            let line_break = Some(FormatElement::Line(LineMode::Hard));
            lemma_flushed_prints(popped, line_break, outer, open, rest, behind);
        },
        FormatElement::Interned(content) => {
            lemma_layout_concat(content@, rest, none, open);
            lemma_quiet_concat(content@, rest);
            assert(open + none =~= open);
            assert(content@ + (rest + behind) =~= (content@ + rest) + behind);
            assert(prints_part(
                popped.queueing(content@),
                outer,
                open,
                content@ + rest,
                behind,
            ));
        },
        FormatElement::Tag(tag) => {
            if tag.starts() {
                lemma_start_goes_well(options, popped, tag, outer, open, rest, behind);
            } else {
                assert(machine.stack.last().kind == StackFrameKind::Tag(open.last()));
                if let Ok(after) = print_end(popped, tag) {
                    assert(after.stack == machine.stack.drop_last());
                    assert(prints_part(after, outer, open.drop_last(), rest, behind));
                }
            }
        },
        _ => {
            if let Ok(after) = print_plain(options, popped, element) {
                assert(prints_part(after, outer, open, rest, behind));
            }
        },
    }
}

/// Text can exceed what the printer can count, but it cannot be malformed.
proof fn lemma_text_goes_well(
    options: PrinterOptions,
    machine: Machine,
    element: FormatElement,
    text: Seq<char>,
    source_position: Option<TextSize>,
    outer: Seq<StackFrame>,
    open: Seq<TagKind>,
    part: Seq<FormatElement>,
    behind: Seq<FormatElement>,
)
    requires
        prints_part(machine, outer, open, part, behind),
        open_behind(element, open, open),
    ensures
        goes_well(
            with_state(
                machine,
                after_text(options, machine.state, text, source_position),
            ),
            element,
            outer,
            open,
            behind,
        ),
{
    lemma_text_keeps_suffixes(
        options,
        machine.state,
        text,
        source_position,
    );
    if let Ok(state) = after_text(
        options,
        machine.state,
        text,
        source_position,
    ) {
        assert(prints_part(Machine { state, ..machine }, outer, open, part, behind));
    }
}

/// Printing a line break of a document leads to no error.
proof fn lemma_line_goes_well(
    options: PrinterOptions,
    machine: Machine,
    line_mode: LineMode,
    outer: Seq<StackFrame>,
    open: Seq<TagKind>,
    part: Seq<FormatElement>,
    behind: Seq<FormatElement>,
)
    requires
        prints_part(machine, outer, open, part, behind),
    ensures
        goes_well(
            print_line(options, machine, line_mode),
            FormatElement::Line(line_mode),
            outer,
            open,
            behind,
        ),
{
    let element = FormatElement::Line(line_mode);
    let start = if machine.mode() == PrintMode::Flat {
        machine.with_measured(false)
    } else {
        machine
    };
    assert(prints_part(start, outer, open, part, behind));
    lemma_flushed_prints(start, Some(element), outer, open, part, behind);
    lemma_break_keeps_suffixes(options, start.state, line_mode);
    if let Ok(after) = print_line(options, machine, line_mode) {
        if after == flushed(start, Some(element)) {
            let (inside, next) = choose|inside: Seq<TagKind>, next: Seq<FormatElement>|
                open_behind(FormatElement::LineSuffixBoundary, open, inside) && #[trigger]
                    prints_part(after, outer, inside, next, behind);
            assert(open_behind(element, open, inside));
        } else {
            assert(open + line_suffixes(0) =~= open);
            assert(open_behind(element, open, open));
            assert(prints_part(after, outer, open, part, behind));
        }
    }
}

/// Choosing a variant of a document leads to no error.
proof fn lemma_choice_without_error(
    options: PrinterOptions,
    machine: Machine,
    best_fitting: BestFittingElement,
    index: int,
    outer: Seq<StackFrame>,
    open: Seq<TagKind>,
)
    requires
        is_open(machine.stack, outer, open),
        lays_out(machine.queue, open),
        !open.contains(TagKind::LineSuffix),
        variants_lay_out(best_fitting, best_fitting.layouts().len()),
    ensures
        chosen_variant(options, machine, best_fitting, index) matches Err(stop)
            ==> stop is Unsupported,
    decreases best_fitting.layouts().len() - index,
{
    let variants = best_fitting.layouts();
    if 0 <= index < variants.len() - 1 {
        let variant = variants[index]@;
        lemma_variant_lays_out(best_fitting, variants.len(), index);
        let content = variant.drop_first();
        let none: Seq<TagKind> = Seq::empty();
        assert(lays_out(content, none.push(TagKind::Entry)));
        lemma_layout_concat(content, machine.queue, none.push(TagKind::Entry), open);
        assert(open + none.push(TagKind::Entry) =~= open.push(TagKind::Entry));
        let flat = top_args(machine.stack).in_mode(PrintMode::Flat);
        lemma_push_open(machine.stack, outer, open, TagKind::Entry, flat);
        lemma_push_no_suffix(open, TagKind::Entry);
        lemma_fits_without_error(
            options,
            machine.queueing(content).entering(TagKind::Entry, flat),
            outer,
            open.push(TagKind::Entry),
        );
        if let Ok((_, group_modes)) = variant_fits(options, machine, variant) {
            lemma_choice_without_error(
                options,
                machine.with_group_modes(group_modes),
                best_fitting,
                index + 1,
                outer,
                open,
            );
        }
    }
}

/// Printing an element of a document leads to no error.
proof fn lemma_element_goes_well(
    options: PrinterOptions,
    machine: Machine,
    outer: Seq<StackFrame>,
    open: Seq<TagKind>,
    part: Seq<FormatElement>,
    behind: Seq<FormatElement>,
)
    requires
        prints_part(machine, outer, open, part, behind),
        part.len() > 0,
    ensures
        machine.queue[0] == part[0],
        goes_well(
            print_element(options, machine.popped(), part[0]),
            part[0],
            outer,
            open,
            behind,
        ),
    decreases
        machine.remaining().suffixes,
        machine.remaining().pending,
        machine.remaining().size,
        1nat,
{
    assert(machine.queue[0] == part[0]);
    match part[0] {
        FormatElement::BestFitting(best_fitting) => {
            assert(behind =~= Seq::empty());
            lemma_document_is_part(machine, outer, open, part);
            lemma_best_fitting_goes_well(options, machine, best_fitting, outer, open);
            if let Ok(after) = print_element(options, machine.popped(), part[0]) {
                lemma_document_is_part(after, outer, open, after.queue);
            }
        },
        FormatElement::Tag(Tag::StartFill) => {
            assert(behind =~= Seq::empty());
            lemma_document_is_part(machine, outer, open, part);
            lemma_start_fill_goes_well(options, machine, outer, open);
            if let Ok(after) = print_element(options, machine.popped(), part[0]) {
                lemma_document_is_part(after, outer, open.push(TagKind::Fill), after.queue);
            }
        },
        _ => {
            lemma_plain_goes_well(options, machine, outer, open, part, behind);
        },
    }
}

/// Printing a best fitting element of a document leads to no error.
proof fn lemma_best_fitting_goes_well(
    options: PrinterOptions,
    machine: Machine,
    best_fitting: BestFittingElement,
    outer: Seq<StackFrame>,
    open: Seq<TagKind>,
)
    requires
        prints_document(machine, outer, open),
        machine.queue.len() > 0,
        machine.queue[0] == FormatElement::BestFitting(best_fitting),
    ensures
        match print_element(options, machine.popped(), machine.queue[0]) {
            Ok(after) => prints_document(after, outer, open),
            Err(stop) => stop is Unsupported,
        },
    decreases
        machine.remaining().suffixes,
        machine.remaining().pending,
        machine.remaining().size,
        0nat,
{
    let popped = machine.popped();
    let variants = best_fitting.layouts();
    let measured = popped.with_measured(true);
    lemma_choice_without_error(options, measured, best_fitting, 0, outer, open);
    lemma_chosen_variant(options, measured, best_fitting, 0);
    if let Ok((chosen, variant, args)) = best_variant(options, popped, best_fitting) {
        assert(exists|i: int| 0 <= i < variants.len() && variant == (#[trigger] variants[i])@) by {
            if popped.mode() == PrintMode::Flat && popped.state.measured_group_fits {
                assert(variant == variants[0]@);
            }
        }
        let index = choose|i: int| 0 <= i < variants.len() && variant == (#[trigger] variants[i])@;
        let queued = chosen.queueing(variant);
        let none: Seq<TagKind> = Seq::empty();
        lemma_variant_lays_out(best_fitting, variants.len(), index);
        lemma_layout_concat(variant, popped.queue, none, open);
        assert(open + none =~= open);
        assert(chosen.queue == popped.queue && chosen.stack == popped.stack);
        assert(prints_document(queued, outer, open));
        assert(queued.queue[0] == variant[0]);
        lemma_best_variant(options, popped, best_fitting);
        lemma_popped_remaining(machine);
        lemma_entry_goes_well(options, queued, args, outer, open);
    }
}

/// Printing the start of a fill of a document leads to no error.
proof fn lemma_start_fill_goes_well(
    options: PrinterOptions,
    machine: Machine,
    outer: Seq<StackFrame>,
    open: Seq<TagKind>,
)
    requires
        prints_document(machine, outer, open),
        machine.queue.len() > 0,
        machine.queue[0] == FormatElement::Tag(Tag::StartFill),
    ensures
        match print_element(options, machine.popped(), machine.queue[0]) {
            Ok(after) => prints_document(after, outer, open.push(TagKind::Fill)),
            Err(stop) => stop is Unsupported,
        },
    decreases
        machine.remaining().suffixes,
        machine.remaining().pending,
        machine.remaining().size,
        0nat,
{
    let popped = machine.popped();
    let args = top_args(popped.stack);
    let entered = popped.entering(TagKind::Fill, args);
    lemma_push_open(popped.stack, outer, open, TagKind::Fill, args);
    lemma_popped_remaining(machine);
    lemma_fill_goes_well(options, entered, args, outer, open.push(TagKind::Fill));
}

/// Printing an entry of a document leads to no error, and to what comes behind the entry.
proof fn lemma_entry_goes_well(
    options: PrinterOptions,
    machine: Machine,
    args: PrintElementArgs,
    outer: Seq<StackFrame>,
    open: Seq<TagKind>,
)
    requires
        prints_document(machine, outer, open),
        machine.queue.len() > 0,
        machine.queue[0] == FormatElement::Tag(Tag::StartEntry),
    ensures
        match print_entry(options, machine, args) {
            Ok(after) => prints_document(after, outer, open),
            Err(stop) => stop is Unsupported,
        },
    decreases
        machine.remaining().suffixes,
        machine.remaining().pending,
        machine.remaining().size,
        4nat,
{
    let none: Seq<FormatElement> = Seq::empty();
    lemma_document_is_part(machine, outer, open, machine.queue);
    lemma_entry_of_part_goes_well(options, machine, args, outer, open, machine.queue, none);
    if let Ok(after) = print_entry(options, machine, args) {
        let next = choose|next: Seq<FormatElement>| #[trigger]
            prints_part(after, outer, open, next, none);
        lemma_document_is_part(after, outer, open, next);
    }
}

/// Printing an entry leads to no error, and to what comes behind the entry.
proof fn lemma_entry_of_part_goes_well(
    options: PrinterOptions,
    machine: Machine,
    args: PrintElementArgs,
    outer: Seq<StackFrame>,
    open: Seq<TagKind>,
    part: Seq<FormatElement>,
    behind: Seq<FormatElement>,
)
    requires
        prints_part(machine, outer, open, part, behind),
        part.len() > 0,
        part[0] == FormatElement::Tag(Tag::StartEntry),
    ensures
        match print_entry(options, machine, args) {
            Ok(after) => exists|next: Seq<FormatElement>| #[trigger]
                prints_part(after, outer, open, next, behind),
            Err(stop) => stop is Unsupported,
        },
    decreases
        machine.remaining().suffixes,
        machine.remaining().pending,
        machine.remaining().size,
        3nat,
{
    let inside = machine.popped().entering(TagKind::Entry, args);
    let rest = part.drop_first();
    assert(machine.queue[0] == part[0]);
    assert(inside.queue =~= rest + behind);
    assert(next_is(machine.queue, Tag::StartEntry));
    assert(lays_out(rest, open.push(TagKind::Entry)));
    lemma_popped_remaining(machine);
    lemma_push_open(machine.stack, outer, open, TagKind::Entry, args);
    let top: Seq<TagKind> = seq![TagKind::Entry] + Seq::empty();
    assert(open + top =~= open.push(TagKind::Entry));
    assert(prints_part(inside, outer, open + top, rest, behind));
    lemma_entry_rest_goes_well(
        options,
        inside,
        args,
        1,
        outer,
        open,
        Seq::empty(),
        rest,
        behind,
    );
}

/// What an element does to the parts that are open, it does to those above others.
proof fn lemma_open_above(
    element: FormatElement,
    lower: Seq<TagKind>,
    top: Seq<TagKind>,
    inside: Seq<TagKind>,
)
    requires
        open_behind(element, lower + top, inside),
        top.len() > 0,
    ensures
        inside == lower + inside.skip(lower.len() as int),
        open_behind(element, top, inside.skip(lower.len() as int)),
{
    let above = inside.skip(lower.len() as int);
    match element {
        FormatElement::Tag(tag) => {
            assert((lower + top).push(tag.marks()) =~= lower + top.push(tag.marks()));
            assert((lower + top).drop_last() =~= lower + top.drop_last());
            if tag.starts() {
                if inside == lower + top {
                    assert(above =~= top);
                } else {
                    assert(above =~= top.push(tag.marks()));
                }
            } else {
                assert(above =~= top.drop_last());
            }
        },
        FormatElement::Line(_) | FormatElement::LineSuffixBoundary => {
            let count = choose|count: nat| inside == (lower + top) + #[trigger] line_suffixes(count);
            assert(above =~= top + line_suffixes(count));
        },
        _ => {
            assert(above =~= top);
        },
    }
    assert(inside =~= lower + above);
}

/// The end of an entry leads to what comes behind the entry.
proof fn lemma_entry_end_goes_well(
    machine: Machine,
    outer: Seq<StackFrame>,
    lower: Seq<TagKind>,
    upper: Seq<TagKind>,
    part: Seq<FormatElement>,
    behind: Seq<FormatElement>,
)
    requires
        prints_part(machine, outer, lower + (seq![TagKind::Entry] + upper), part, behind),
        count_of(upper, TagKind::Entry) == 0,
        part.len() > 0,
        part[0] == FormatElement::Tag(Tag::EndEntry),
    ensures
        match machine.popped().leaving(TagKind::Entry) {
            Ok(after) => prints_part(after, outer, lower, part.drop_first(), behind),
            Err(stop) => stop is Unsupported,
        },
{
    let open = lower + (seq![TagKind::Entry] + upper);
    assert(upper.len() == 0) by {
        if upper.len() > 0 {
            assert(open.last() == upper.last());
        }
    }
    assert(open.drop_last() =~= lower);
    assert(machine.stack.last().kind == StackFrameKind::Tag(open.last()));
    assert(is_open(machine.stack.drop_last(), outer, lower));
    assert(machine.popped().queue =~= part.drop_first() + behind);
}

/// Printing what is left of an entry leads to no error, and to what comes behind the entry.
proof fn lemma_entry_rest_goes_well(
    options: PrinterOptions,
    machine: Machine,
    args: PrintElementArgs,
    depth: nat,
    outer: Seq<StackFrame>,
    lower: Seq<TagKind>,
    upper: Seq<TagKind>,
    part: Seq<FormatElement>,
    behind: Seq<FormatElement>,
)
    requires
        prints_part(machine, outer, lower + (seq![TagKind::Entry] + upper), part, behind),
        depth == 1 + count_of(upper, TagKind::Entry),
    ensures
        match print_entry_rest(options, machine, args, depth) {
            Ok(after) => exists|next: Seq<FormatElement>| #[trigger]
                prints_part(after, outer, lower, next, behind),
            Err(stop) => stop is Unsupported,
        },
    decreases
        machine.remaining().suffixes,
        machine.remaining().pending,
        machine.remaining().size,
        2nat,
{
    let top = seq![TagKind::Entry] + upper;
    let open = lower + top;
    assert(part.len() > 0);
    let element = part[0];
    let popped = machine.popped();
    assert(machine.queue[0] == element);
    if element == FormatElement::Tag(Tag::EndEntry) && depth <= 1 {
        lemma_entry_end_goes_well(machine, outer, lower, upper, part, behind);
    } else if !(element == FormatElement::Tag(Tag::StartEntry) && depth >= i32::MAX) {
        lemma_element_goes_well(options, machine, outer, open, part, behind);
        lemma_entry_rest_step(options, machine, args, depth);
        if let Ok(after) = advanced(machine.remaining(), print_element(options, popped, element)) {
            let (inside, next) = choose|inside: Seq<TagKind>, next: Seq<FormatElement>|
                open_behind(element, open, inside) && #[trigger] prints_part(
                    after,
                    outer,
                    inside,
                    next,
                    behind,
                );
            let above = inside.skip(lower.len() as int);
            lemma_open_above(element, lower, top, inside);
            lemma_entries_in_open(element, upper, above);
            assert(above =~= seq![TagKind::Entry] + above.skip(1));
            lemma_entry_rest_goes_well(
                options,
                after,
                args,
                depth_behind(element, depth),
                outer,
                lower,
                above.skip(1),
                next,
                behind,
            );
        }
    }
}

/// Printing an entry of a fill leads to no error, and to what is left of the fill behind it.
proof fn lemma_fill_entry_goes_well(
    options: PrinterOptions,
    machine: Machine,
    args: PrintElementArgs,
    outer: Seq<StackFrame>,
    open: Seq<TagKind>,
    is_item: bool,
)
    requires
        prints_document(machine, outer, open),
        fill_follows(machine.queue, is_item),
        next_is(machine.queue, Tag::StartEntry),
    ensures
        match print_entry(options, machine, args) {
            Ok(after) => {
                &&& prints_document(after, outer, open)
                &&& after.queue == machine.queue.skip(entry_length(machine.queue))
                &&& after.stack == machine.stack
                &&& fill_follows(after.queue, !is_item)
            },
            Err(stop) => stop is Unsupported,
        },
    decreases
        machine.remaining().suffixes,
        machine.remaining().pending,
        machine.remaining().size,
        5nat,
{
    let length = entry_length(machine.queue);
    lemma_next_of_fill(machine.queue, is_item);
    lemma_entry_goes_well(options, machine, args, outer, open);
    lemma_entry_inside(
        options,
        machine,
        machine.queue.take(length),
        machine.queue.skip(length),
        args,
    );
}

/// Printing a separator inside of a fill of its own leads to no error, and to what is left of the
/// fill behind it.
proof fn lemma_separator_goes_well(
    options: PrinterOptions,
    machine: Machine,
    fill_args: PrintElementArgs,
    args: PrintElementArgs,
    outer: Seq<StackFrame>,
    open: Seq<TagKind>,
)
    requires
        prints_document(machine, outer, open),
        fill_follows(machine.queue, false),
        next_is(machine.queue, Tag::StartEntry),
    ensures
        match print_entry(options, machine.entering(TagKind::Fill, fill_args), args) {
            Ok(separator) => match separator.leaving(TagKind::Fill) {
                Ok(after) => {
                    &&& prints_document(after, outer, open)
                    &&& fill_follows(after.queue, true)
                },
                Err(stop) => stop is Unsupported,
            },
            Err(stop) => stop is Unsupported,
        },
    decreases
        machine.remaining().suffixes,
        machine.remaining().pending,
        machine.remaining().size,
        4nat,
{
    let length = entry_length(machine.queue);
    let entry = machine.queue.take(length);
    let rest = machine.queue.skip(length);
    let start = machine.entering(TagKind::Fill, fill_args);
    let none: Seq<TagKind> = Seq::empty();
    lemma_next_of_fill(machine.queue, false);
    lemma_layout_behind_entry(machine.queue, length, open);
    assert(prints_part(start, start.stack, none, entry, rest));
    lemma_entry_of_part_goes_well(options, start, args, start.stack, none, entry, rest);
    lemma_entry_inside(options, start, entry, rest, args);
    if let Ok(separator) = print_entry(options, start, args) {
        let next = choose|next: Seq<FormatElement>| #[trigger]
            prints_part(separator, start.stack, none, next, rest);
        assert(separator.stack == push_frame(machine.stack, TagKind::Fill, fill_args));
        assert(separator.stack.drop_last() =~= machine.stack);
        assert(separator.queue == rest);
    }
}

/// Printing the entries of a fill up to its end leads to no error.
proof fn lemma_fill_goes_well(
    options: PrinterOptions,
    machine: Machine,
    args: PrintElementArgs,
    outer: Seq<StackFrame>,
    open: Seq<TagKind>,
)
    requires
        prints_document(machine, outer, open),
        fill_follows(machine.queue, true),
    ensures
        match print_fill(options, machine, args) {
            Ok(after) => prints_document(after, outer, open),
            Err(stop) => stop is Unsupported,
        },
    decreases
        machine.remaining().suffixes,
        machine.remaining().pending,
        machine.remaining().size,
        9nat,
{
    if next_is(machine.queue, Tag::StartEntry) {
        lemma_fill_line_goes_well(options, machine, args, outer, open);
        if let Ok(after) = advanced(machine.remaining(), print_fill_line(options, machine, args)) {
            lemma_fill_goes_well(options, after, args, outer, open);
        }
    } else {
        assert(machine.queue[0] == FormatElement::Tag(Tag::EndFill)) by {
            if entry_ends_at(machine.queue, entry_length(machine.queue)) {
                assert(machine.queue[0] == machine.queue.take(entry_length(machine.queue))[0]);
            }
        }
    }
}

/// Printing a line of a fill leads to no error.
proof fn lemma_fill_line_goes_well(
    options: PrinterOptions,
    machine: Machine,
    args: PrintElementArgs,
    outer: Seq<StackFrame>,
    open: Seq<TagKind>,
)
    requires
        prints_document(machine, outer, open),
        fill_follows(machine.queue, true),
        next_is(machine.queue, Tag::StartEntry),
    ensures
        match print_fill_line(options, machine, args) {
            Ok(after) => prints_document(after, outer, open) && fill_follows(after.queue, true),
            Err(stop) => stop is Unsupported,
        },
    decreases
        machine.remaining().suffixes,
        machine.remaining().pending,
        machine.remaining().size,
        8nat,
{
    let view = measuring_flat(machine);
    lemma_pairs_measure(options, view);
    if let Ok((pairs, layout, group_modes)) = fill_layout(options, machine) {
        let start = machine.with_group_modes(group_modes).with_measured(true);
        let flat = args.in_mode(PrintMode::Flat);
        assert(prints_document(start, outer, open));
        lemma_entries_fewer(machine.queue, 2 * pairs, 1);
        lemma_flat_pairs_go_well(options, start, flat, pairs, outer, open);
        if let Ok(after) = not_behind(
            start.remaining(),
            print_flat_pairs(options, start, flat, pairs),
        ) {
            if layout == FillPairLayout::ItemMaybeFlat {
                lemma_entries_fewer(machine.queue, 2 * pairs, 2);
                let last = choose|last: FitsView| #[trigger]
                    item_fits(options, last) && last.queue == behind_entries(
                        view.queue,
                        2 * pairs,
                    ) && last.stack == view.stack && last.must_be_flat;
                lemma_mode_before_separator(options, measuring_flat(after), last);
            }
            lemma_last_pair_goes_well(options, after, args, layout, outer, open);
        }
    }
}

/// Where more entries come, the first of them do, and the others behind them.
proof fn lemma_entries_fewer(elements: Seq<FormatElement>, count: nat, more: nat)
    requires
        entries_follow(elements, count + more),
    ensures
        entries_follow(elements, count),
        entries_follow(behind_entries(elements, count), more),
    decreases count,
{
    if count > 0 {
        lemma_entries_fewer(elements.skip(entry_length(elements)), (count - 1) as nat, more);
    }
}

/// Printing pairs of a fill leads to no error, and to what comes behind them.
proof fn lemma_flat_pairs_go_well(
    options: PrinterOptions,
    machine: Machine,
    args: PrintElementArgs,
    count: nat,
    outer: Seq<StackFrame>,
    open: Seq<TagKind>,
)
    requires
        prints_document(machine, outer, open),
        fill_follows(machine.queue, true),
        entries_follow(machine.queue, 2 * count),
    ensures
        match print_flat_pairs(options, machine, args, count) {
            Ok(after) => {
                &&& prints_document(after, outer, open)
                &&& after.queue == behind_entries(machine.queue, 2 * count)
                &&& after.stack == machine.stack
                &&& fill_follows(after.queue, true)
            },
            Err(stop) => stop is Unsupported,
        },
    decreases
        machine.remaining().suffixes,
        machine.remaining().pending,
        machine.remaining().size,
        6nat,
{
    if count > 0 {
        reveal_with_fuel(entries_follow, 3);
        reveal_with_fuel(behind_entries, 3);
        lemma_fill_entry_goes_well(options, machine, args, outer, open, true);
        if let Ok(item) = advanced(machine.remaining(), print_entry(options, machine, args)) {
            lemma_fill_entry_goes_well(options, item, args, outer, open, false);
            if let Ok(separator) = advanced(item.remaining(), print_entry(options, item, args)) {
                assert(2 * count - 2 == 2 * (count - 1));
                lemma_flat_pairs_go_well(
                    options,
                    separator,
                    args,
                    (count - 1) as nat,
                    outer,
                    open,
                );
            }
        }
    }
}

/// Printing the last pair of a line of a fill leads to no error, if finding out the mode of its
/// item does not.
proof fn lemma_last_pair_goes_well(
    options: PrinterOptions,
    machine: Machine,
    args: PrintElementArgs,
    layout: FillPairLayout,
    outer: Seq<StackFrame>,
    open: Seq<TagKind>,
)
    requires
        prints_document(machine, outer, open),
        fill_follows(machine.queue, true),
        next_is(machine.queue, Tag::StartEntry),
        item_mode(options, machine, layout) matches Err(stop) ==> stop is Unsupported,
    ensures
        match print_last_pair(options, machine, args, layout) {
            Ok(after) => prints_document(after, outer, open) && fill_follows(after.queue, true),
            Err(stop) => stop is Unsupported,
        },
    decreases
        machine.remaining().suffixes,
        machine.remaining().pending,
        machine.remaining().size,
        7nat,
{
    if let Ok((mode, group_modes)) = item_mode(options, machine, layout) {
        let start = machine.with_group_modes(group_modes);
        let item_args = args.in_mode(mode);
        assert(prints_document(start, outer, open));
        lemma_fill_entry_goes_well(options, start, item_args, outer, open, true);
        if let Ok(item) = advanced(
            machine.remaining(),
            print_entry(options, start, item_args),
        ) {
            if next_is(item.queue, Tag::StartEntry) {
                lemma_separator_goes_well(
                    options,
                    item,
                    args.in_mode(PrintMode::Flat),
                    args.in_mode(separator_mode(layout)),
                    outer,
                    open,
                );
            }
        }
    }
}

/// Printing all that is queued leads to no error.
proof fn lemma_queue_goes_well(
    options: PrinterOptions,
    machine: Machine,
    outer: Seq<StackFrame>,
    open: Seq<TagKind>,
)
    requires
        prints_document(machine, outer, open),
    ensures
        print_queue(options, machine) matches Err(stop) ==> stop is Unsupported,
    decreases
        machine.remaining().suffixes,
        machine.remaining().pending,
        machine.remaining().size,
{
    if machine.queue.len() > 0 {
        let none: Seq<FormatElement> = Seq::empty();
        let element = machine.queue[0];
        reveal(print_next);
        lemma_next_progress(options, machine);
        lemma_document_is_part(machine, outer, open, machine.queue);
        lemma_element_goes_well(options, machine, outer, open, machine.queue, none);
        if let Ok(after) = print_element(options, machine.popped(), element) {
            let (inside, next) = choose|inside: Seq<TagKind>, next: Seq<FormatElement>|
                open_behind(element, open, inside) && #[trigger] prints_part(
                    after,
                    outer,
                    inside,
                    next,
                    none,
                );
            lemma_document_is_part(after, outer, inside, next);
            if after.queue.len() == 0 {
                lemma_flushed_prints(after, None, outer, inside, next, none);
                let boundary = FormatElement::LineSuffixBoundary;
                let end = flushed(after, None);
                let (flushing, left) = choose|
                    flushing: Seq<TagKind>,
                    left: Seq<FormatElement>,
                |
                    open_behind(boundary, inside, flushing) && #[trigger] prints_part(
                        end,
                        outer,
                        flushing,
                        left,
                        none,
                    );
                lemma_document_is_part(end, outer, flushing, left);
                lemma_queue_goes_well(options, at_end(after), outer, flushing);
            } else {
                lemma_queue_goes_well(options, after, outer, inside);
            }
        }
    }
}

/// A document is printed without an error, for all options and from any indent, if its parts nest,
/// if its fills hold items and separators that are measured reliably, and if its line suffixes and
/// separators need no measuring.
pub proof fn lemma_document_prints_without_error(
    options: PrinterOptions,
    document: Seq<FormatElement>,
    indent: u16,
)
    requires
        lays_out(document, Seq::empty()),
    ensures
        printed_document(options, initial_state(), document, indent) matches Err(halt) ==> halt
            == Halt::Unsupported,
{
    let start = starting(initial_state(), document, indent);
    let none: Seq<FormatElement> = Seq::empty();
    assert(entries_queued(Seq::empty(), Seq::empty(), none).1 =~= none);
    assert(line_suffixes(0) =~= Seq::empty());
    assert(prints_document(start, start.stack, Seq::empty()));
    lemma_queue_goes_well(options, start, start.stack, Seq::empty());
}

} // verus!
