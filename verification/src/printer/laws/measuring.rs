//! Documents are measured without an error.

use crate::format_element::{total_size, FormatElement};
use crate::options::PrinterOptions;
use crate::printer::call_stack::{
    push_frame, top_args, PrintElementArgs, StackFrame, StackFrameKind,
};
use crate::printer::fits::{
    end_follows, fits_content, fits_element, fits_end, fits_entry, fits_start, fits_text,
    lemma_fits_element_progress, Fits, FitsEnd, FitsView,
};
use crate::printer::laws::layout::{
    entry_ends_at, entry_length, fill_follows, is_quiet, is_reliable, lays_out, lemma_layout_concat,
    lemma_layout_nests, lemma_layout_split, lemma_reliable_content, lemma_variant_is_reliable,
    lemma_variant_lays_out,
};
use crate::printer::laws::nesting::{
    closes, count_of, is_entry, is_open, lemma_entries_in_open, lemma_nests_closes, line_suffixes,
    open_behind,
};
use crate::printer::outcome::{
    depth_behind, flat_pairs, lemma_fits_entry_size, mode_before_separator, pairs_layout,
    FillPairLayout,
};
use crate::printer::queue::{entry_ends, lemma_pop_size, next_is};
use crate::printer::state::Stop;
use crate::tag::{PrintMode, Tag, TagKind};
use vstd::prelude::*;

verus! {

/// Whether measuring is inside of the given parts of a document, with `part` up to their end and
/// `behind` behind it.
pub open spec fn measures_part(
    view: FitsView,
    outer: Seq<StackFrame>,
    open: Seq<TagKind>,
    part: Seq<FormatElement>,
    behind: Seq<FormatElement>,
) -> bool {
    &&& is_open(view.stack, outer, open)
    &&& view.queue == part + behind
    &&& lays_out(part, open)
    &&& !open.contains(TagKind::LineSuffix)
}

/// Whether measuring goes on inside of a document behind the first element of `part`, with `next`
/// up to the end of the parts that are open there.
pub open spec fn measures_on(
    after: FitsView,
    outer: Seq<StackFrame>,
    open: Seq<TagKind>,
    inside: Seq<TagKind>,
    part: Seq<FormatElement>,
    next: Seq<FormatElement>,
    behind: Seq<FormatElement>,
) -> bool {
    &&& open_behind(part[0], open, inside)
    &&& measures_part(after, outer, inside, next, behind)
    &&& open.len() > 0 && closes(part, open) ==> closes(next, inside)
    &&& is_reliable(part, true) ==> is_reliable(next, true)
    &&& is_reliable(part, false) ==> is_reliable(next, false)
}

/// Whether measuring the first element of `part` finds no error, and where it stops or goes on.
pub open spec fn step_measures(
    result: Result<(Fits, FitsView), Stop<FitsView>>,
    must_be_flat: bool,
    outer: Seq<StackFrame>,
    open: Seq<TagKind>,
    part: Seq<FormatElement>,
    behind: Seq<FormatElement>,
) -> bool {
    match result {
        Ok((fits, after)) => {
            &&& after.must_be_flat == must_be_flat
            &&& if fits == Fits::Maybe {
                exists|inside: Seq<TagKind>, next: Seq<FormatElement>| #[trigger]
                    measures_on(after, outer, open, inside, part, next, behind)
            } else {
                &&& after.queue == part.drop_first() + behind
                &&& part[0] matches FormatElement::Tag(tag) ==> tag.starts()
                &&& fits == Fits::Yes && must_be_flat ==> part[0] is Line
            }
        },
        Err(stop) => stop is Unsupported,
    }
}

/// A part that starts is another part that is open.
pub proof fn lemma_push_open(
    stack: Seq<StackFrame>,
    outer: Seq<StackFrame>,
    open: Seq<TagKind>,
    kind: TagKind,
    args: PrintElementArgs,
)
    requires
        is_open(stack, outer, open),
    ensures
        is_open(push_frame(stack, kind, args), outer, open.push(kind)),
{
    let pushed = push_frame(stack, kind, args);
    let inside = open.push(kind);
    assert forall|i: int| outer.len() <= i < pushed.len() implies (#[trigger] pushed[i]).kind
        == StackFrameKind::Tag(inside[i - outer.len()]) by {
        if i < stack.len() {
            assert(pushed[i] == stack[i]);
        }
    }
}

/// Another part that is no line suffix adds no line suffix.
pub proof fn lemma_push_no_suffix(open: Seq<TagKind>, kind: TagKind)
    requires
        !open.contains(TagKind::LineSuffix),
        kind != TagKind::LineSuffix,
    ensures
        !open.push(kind).contains(TagKind::LineSuffix),
{
    let pushed = open.push(kind);
    assert forall|i: int| 0 <= i < pushed.len() implies #[trigger] pushed[i]
        != TagKind::LineSuffix by {
        if i < open.len() {
            assert(open.contains(open[i]));
        }
    }
}

proof fn lemma_pop_no_suffix(open: Seq<TagKind>)
    requires
        !open.contains(TagKind::LineSuffix),
        open.len() > 0,
    ensures
        !open.drop_last().contains(TagKind::LineSuffix),
{
    assert forall|i: int| 0 <= i < open.len() - 1 implies #[trigger] open.drop_last()[i]
        != TagKind::LineSuffix by {
        assert(open.contains(open[i]));
    }
}

/// Measuring the start of a part of a document goes on inside of a document.
proof fn lemma_start_measures(
    options: PrinterOptions,
    view: FitsView,
    tag: Tag,
    outer: Seq<StackFrame>,
    open: Seq<TagKind>,
    part: Seq<FormatElement>,
    behind: Seq<FormatElement>,
)
    requires
        tag.starts(),
        part.len() > 0,
        part[0] == FormatElement::Tag(tag),
        is_open(view.stack, outer, open),
        view.queue == part.drop_first() + behind,
        lays_out(part, open),
        !open.contains(TagKind::LineSuffix),
    ensures
        step_measures(
            fits_start(options, view, tag),
            view.must_be_flat,
            outer,
            open,
            part,
            behind,
        ),
{
    let kind = tag.marks();
    let rest = part.drop_first();
    let length = lemma_layout_split(rest, behind, open, kind);
    if let Ok((Fits::Maybe, after)) = fits_start(options, view, tag) {
        if after.stack == view.stack {
            assert(after.queue == rest.skip(length) + behind);
            assert(measures_on(after, outer, open, open, part, rest.skip(length), behind));
        } else {
            let args = after.stack.last().args;
            assert(after.stack == push_frame(view.stack, kind, args));
            lemma_push_open(view.stack, outer, open, kind, args);
            lemma_push_no_suffix(open, kind);
            assert(measures_on(after, outer, open, open.push(kind), part, rest, behind));
        }
    }
}

/// Shared content and variants go before the elements behind them.
proof fn lemma_content_measures(
    view: FitsView,
    content: Seq<FormatElement>,
    outer: Seq<StackFrame>,
    open: Seq<TagKind>,
    part: Seq<FormatElement>,
    behind: Seq<FormatElement>,
)
    requires
        measures_part(view, outer, open, part, behind),
        part.len() > 0,
        part[0] is Interned || part[0] is BestFitting,
        lays_out(content, Seq::empty()),
        is_reliable(part, true) ==> is_reliable(content, true),
        is_reliable(part, false) ==> is_reliable(content, false),
    ensures
        measures_on(
            FitsView { queue: content + (part.drop_first() + behind), ..view },
            outer,
            open,
            open,
            part,
            content + part.drop_first(),
            behind,
        ),
{
    let rest = part.drop_first();
    let none: Seq<TagKind> = Seq::empty();
    assert(open + none =~= open);
    lemma_layout_concat(content, rest, none, open);
    lemma_layout_nests(content, none);
    if open.len() > 0 && closes(part, open) {
        lemma_nests_closes(content, rest, none, open);
    }
    if is_reliable(part, true) {
        lemma_reliable_content(part, content, true);
    }
    if is_reliable(part, false) {
        lemma_reliable_content(part, content, false);
    }
    assert(content + (rest + behind) =~= (content + rest) + behind);
}

/// Text can exceed what measuring can count, but it cannot be malformed.
proof fn lemma_text_measures(
    options: PrinterOptions,
    view: FitsView,
    text: Seq<char>,
    outer: Seq<StackFrame>,
    open: Seq<TagKind>,
    part: Seq<FormatElement>,
    behind: Seq<FormatElement>,
)
    requires
        measures_on(view, outer, open, open, part, part.drop_first(), behind),
        !(part[0] is Tag),
    ensures
        step_measures(
            fits_text(options, view, text),
            view.must_be_flat,
            outer,
            open,
            part,
            behind,
        ),
{
    if let Ok((Fits::Maybe, after)) = fits_text(options, view, text) {
        assert(measures_on(after, outer, open, open, part, part.drop_first(), behind));
    }
}

/// Measuring an element of a document finds no error in it.
proof fn lemma_element_measures(
    options: PrinterOptions,
    view: FitsView,
    outer: Seq<StackFrame>,
    open: Seq<TagKind>,
    part: Seq<FormatElement>,
    behind: Seq<FormatElement>,
)
    requires
        measures_part(view, outer, open, part, behind),
        part.len() > 0,
    ensures
        view.queue[0] == part[0],
        step_measures(
            fits_element(
                options,
                FitsView { queue: view.queue.drop_first(), ..view },
                view.queue[0],
            ),
            view.must_be_flat,
            outer,
            open,
            part,
            behind,
        ),
{
    let rest = part.drop_first();
    let popped = FitsView { queue: view.queue.drop_first(), ..view };
    let element = view.queue[0];
    assert(element == part[0]);
    assert(popped.queue =~= rest + behind);
    match element {
        FormatElement::Interned(content) => {
            lemma_content_measures(view, content@, outer, open, part, behind);
        },
        FormatElement::BestFitting(best_fitting) => {
            let variants = best_fitting.layouts();
            if variants.len() > 0 {
                let index = if top_args(view.stack).mode == PrintMode::Flat {
                    0
                } else {
                    variants.len() - 1
                };
                lemma_variant_lays_out(best_fitting, variants.len(), index);
                if is_reliable(part, true) {
                    lemma_variant_is_reliable(best_fitting, variants.len(), index, true);
                }
                if is_reliable(part, false) {
                    lemma_variant_is_reliable(best_fitting, variants.len(), index, false);
                }
                lemma_content_measures(view, variants[index]@, outer, open, part, behind);
            }
        },
        FormatElement::Tag(tag) => {
            if tag.starts() {
                lemma_start_measures(options, popped, tag, outer, open, part, behind);
            } else {
                assert(open.contains(open[open.len() - 1]));
                assert(view.stack.last().kind == StackFrameKind::Tag(open.last()));
                lemma_pop_no_suffix(open);
                if let Ok((Fits::Maybe, after)) = fits_end(popped, tag) {
                    assert(after.stack == view.stack.drop_last());
                    assert(measures_on(after, outer, open, open.drop_last(), part, rest, behind));
                }
            }
        },
        _ => {
            assert(open + line_suffixes(0) =~= open);
            assert(measures_on(popped, outer, open, open, part, rest, behind));
            match element {
                FormatElement::StaticText { text } => {
                    lemma_text_measures(options, popped, text@, outer, open, part, behind);
                },
                FormatElement::DynamicText { text, .. } => {
                    lemma_text_measures(options, popped, text@, outer, open, part, behind);
                },
                FormatElement::LocatedTokenText { slice, .. } => {
                    lemma_text_measures(options, popped, slice@, outer, open, part, behind);
                },
                _ => {
                    if let Ok((Fits::Maybe, after)) = fits_element(options, popped, element) {
                        assert(measures_on(after, outer, open, open, part, rest, behind));
                    }
                },
            }
        },
    }
}

/// Measuring a document up to its end finds no error in it.
pub proof fn lemma_document_measures(
    options: PrinterOptions,
    view: FitsView,
    outer: Seq<StackFrame>,
    open: Seq<TagKind>,
)
    requires
        measures_part(view, outer, open, view.queue, Seq::empty()),
    ensures
        fits_content(options, view, FitsEnd::Document) matches Err(stop) ==> stop is Unsupported,
    decreases total_size(view.queue),
{
    if view.queue.len() > 0 {
        let none: Seq<FormatElement> = Seq::empty();
        let popped = FitsView { queue: view.queue.drop_first(), ..view };
        lemma_fits_element_progress(options, view);
        lemma_element_measures(options, view, outer, open, view.queue, none);
        if let Ok((Fits::Maybe, after)) = fits_element(options, popped, view.queue[0]) {
            let (inside, next) = choose|inside: Seq<TagKind>, next: Seq<FormatElement>| #[trigger]
                measures_on(after, outer, open, inside, view.queue, next, none);
            assert(next + none =~= next);
            lemma_document_measures(options, after, outer, inside);
        }
    }
}

/// What measuring an entry starts with.
pub open spec fn entering_entry(view: FitsView, mode: PrintMode) -> FitsView {
    let args = top_args(view.stack).in_mode(mode);
    FitsView { stack: push_frame(view.stack, TagKind::Fill, args), ..view }
}

/// Whether measuring an entry finds no error, and comes to what is behind the entry or ends early.
pub open spec fn entry_measures(
    result: Result<(bool, FitsView, FitsEnd), Stop<(FitsView, FitsEnd)>>,
    outer: Seq<StackFrame>,
    behind: Seq<FormatElement>,
) -> bool {
    match result {
        Ok((fits, after, end)) => {
            &&& after.must_be_flat
            &&& if end is Done {
                fits && after.queue == behind && after.stack == outer
            } else {
                &&& end_follows(end, after.queue) != Some(false)
                &&& fits ==> !next_is(after.queue, Tag::StartEntry)
            }
        },
        Err(stop) => stop is Unsupported,
    }
}

/// What is left of an entry whose parts nest has the end of the entry, whatever comes behind it.
pub proof fn lemma_end_follows(
    part: Seq<FormatElement>,
    behind: Seq<FormatElement>,
    upper: Seq<TagKind>,
)
    requires
        closes(part, seq![TagKind::Entry] + upper),
    ensures
        part.len() > 0,
        entry_ends(part + behind, 1 + count_of(upper, TagKind::Entry)) != Some(false),
    decreases total_size(part),
{
    let open = seq![TagKind::Entry] + upper;
    let all = part + behind;
    let rest = part.drop_first();
    lemma_pop_size(part);
    assert(all[0] == part[0]);
    assert(all.drop_first() =~= rest + behind);
    match part[0] {
        FormatElement::Interned(content) => {
            let none: Seq<TagKind> = Seq::empty();
            lemma_nests_closes(content@, rest, none, open);
            assert(open + none =~= open);
            assert(content@ + (rest + behind) =~= (content@ + rest) + behind);
            lemma_end_follows(content@ + rest, behind, upper);
        },
        FormatElement::Tag(tag) => {
            if tag.starts() {
                let above = upper.push(tag.marks());
                assert(above.drop_last() =~= upper);
                assert(open.push(tag.marks()) =~= seq![TagKind::Entry] + above);
                lemma_end_follows(rest, behind, above);
            } else if upper.len() > 0 {
                let above = upper.drop_last();
                assert(open.last() == upper.last());
                assert(open.drop_last() =~= seq![TagKind::Entry] + above);
                lemma_end_follows(rest, behind, above);
            } else {
                assert(open.last() == TagKind::Entry);
            }
        },
        _ => {
            lemma_end_follows(rest, behind, upper);
        },
    }
}

/// Measuring what is left of an entry finds no error.
proof fn lemma_entry_rest_measures(
    options: PrinterOptions,
    view: FitsView,
    depth: usize,
    outer: Seq<StackFrame>,
    upper: Seq<TagKind>,
    part: Seq<FormatElement>,
    behind: Seq<FormatElement>,
    is_item: bool,
)
    requires
        measures_part(view, outer, seq![TagKind::Entry] + upper, part, behind),
        closes(part, seq![TagKind::Entry] + upper),
        is_reliable(part, is_item),
        depth == 1 + count_of(upper, TagKind::Entry),
        view.must_be_flat,
    ensures
        entry_measures(
            fits_content(options, view, FitsEnd::Entry { depth }),
            outer,
            behind,
        ),
    decreases total_size(view.queue),
{
    let open = seq![TagKind::Entry] + upper;
    let element = part[0];
    let rest = part.drop_first();
    let popped = FitsView { queue: view.queue.drop_first(), ..view };
    lemma_fits_element_progress(options, view);
    lemma_element_measures(options, view, outer, open, part, behind);
    if let Ok((fits, after)) = fits_element(options, popped, element) {
        if fits == Fits::Maybe {
            let (inside, next) = choose|inside: Seq<TagKind>, next: Seq<FormatElement>| #[trigger]
                measures_on(after, outer, open, inside, part, next, behind);
            if element == FormatElement::Tag(Tag::EndEntry) && depth == 1 {
                lemma_last_entry(upper);
                assert(inside =~= Seq::empty());
                assert(after.queue =~= behind);
                assert(after.stack =~= outer);
            } else {
                lemma_entries_in_open(element, upper, inside);
                assert(inside =~= seq![TagKind::Entry] + inside.skip(1));
                if element != FormatElement::Tag(Tag::StartEntry) || depth < usize::MAX {
                    lemma_entry_rest_measures(
                        options,
                        after,
                        depth_behind(element, depth as nat) as usize,
                        outer,
                        inside.skip(1),
                        next,
                        behind,
                        is_item,
                    );
                }
            }
        } else {
            match element {
                FormatElement::Tag(tag) => {
                    let above = upper.push(tag.marks());
                    assert(above.drop_last() =~= upper);
                    assert(open.push(tag.marks()) =~= seq![TagKind::Entry] + above);
                    lemma_end_follows(rest, behind, above);
                },
                _ => {
                    lemma_end_follows(rest, behind, upper);
                },
            }
            assert(after.queue[0] == part[1]);
        }
    }
}

/// Where a single entry is open and an entry ends, nothing is open inside of the entry.
proof fn lemma_last_entry(upper: Seq<TagKind>)
    requires
        count_of(upper, TagKind::Entry) == 0,
        (seq![TagKind::Entry] + upper).last() == TagKind::Entry,
    ensures
        upper.len() == 0,
{
    if upper.len() > 0 {
        assert((seq![TagKind::Entry] + upper).last() == upper.last());
    }
}

/// Measuring an entry finds no error, and comes to what is behind the entry or ends early.
proof fn lemma_entry_measures(
    options: PrinterOptions,
    view: FitsView,
    mode: PrintMode,
    entry: Seq<FormatElement>,
    behind: Seq<FormatElement>,
    is_item: bool,
)
    requires
        view.queue == entry + behind,
        is_entry(entry),
        lays_out(entry, Seq::empty()),
        is_reliable(entry, is_item),
        view.must_be_flat,
    ensures
        entry_measures(
            fits_content(options, entering_entry(view, mode), FitsEnd::Entry { depth: 0 }),
            entering_entry(view, mode).stack,
            behind,
        ),
        match fits_entry(options, view, mode) {
            Ok((fits, after)) => {
                &&& after.must_be_flat
                &&& fits && next_is(after.queue, Tag::StartEntry) ==> {
                    &&& after.queue == behind
                    &&& after.stack == view.stack
                }
            },
            Err(stop) => stop is Unsupported,
        },
{
    let start = entering_entry(view, mode);
    let inside = entered(start);
    lemma_entered(options, start, entry, behind);
    let none: Seq<TagKind> = Seq::empty();
    assert(seq![TagKind::Entry] + none =~= seq![TagKind::Entry]);
    lemma_entry_rest_measures(
        options,
        inside,
        1,
        start.stack,
        none,
        entry.drop_first(),
        behind,
        is_item,
    );
    assert(view.queue[0] == entry[0]);
    assert(start.stack.drop_last() =~= view.stack);
}

/// What is measured inside of the entry that comes next.
spec fn entered(view: FitsView) -> FitsView {
    FitsView {
        queue: view.queue.drop_first(),
        stack: push_frame(view.stack, TagKind::Entry, top_args(view.stack)),
        ..view
    }
}

proof fn lemma_entered(
    options: PrinterOptions,
    view: FitsView,
    entry: Seq<FormatElement>,
    behind: Seq<FormatElement>,
)
    requires
        view.queue == entry + behind,
        is_entry(entry),
        lays_out(entry, Seq::empty()),
    ensures
        fits_content(options, view, FitsEnd::Entry { depth: 0 }) == fits_content(
            options,
            entered(view),
            FitsEnd::Entry { depth: 1 },
        ),
        measures_part(
            entered(view),
            view.stack,
            seq![TagKind::Entry] + Seq::<TagKind>::empty(),
            entry.drop_first(),
            behind,
        ),
{
    let none: Seq<TagKind> = Seq::empty();
    let inside = seq![TagKind::Entry] + none;
    let args = top_args(view.stack);
    assert(view.queue[0] == entry[0]);
    assert(entered(view).queue =~= entry.drop_first() + behind);
    assert(none.push(TagKind::Entry) =~= inside);
    lemma_push_open(view.stack, view.stack, none, TagKind::Entry, args);
    lemma_push_no_suffix(none, TagKind::Entry);
    let popped = FitsView { queue: view.queue.drop_first(), ..view };
    assert(args.in_mode(args.mode) == args);
    assert(fits_element(options, popped, view.queue[0]) == Ok::<_, Stop<FitsView>>(
        (Fits::Maybe, entered(view)),
    ));
}

/// Whether the same is measured, on the same terms, though perhaps elsewhere on a line.
pub open spec fn is_alike(one: FitsView, other: FitsView) -> bool {
    &&& one.queue == other.queue
    &&& one.stack == other.stack
    &&& one.must_be_flat && other.must_be_flat
}

/// Measuring the same element goes on in the same way, unless the element depends on the mode of
/// another group.
proof fn lemma_alike_behind(
    options: PrinterOptions,
    one: FitsView,
    other: FitsView,
    element: FormatElement,
)
    requires
        is_alike(one, other),
        element matches FormatElement::Tag(Tag::StartConditionalContent(condition))
            ==> condition.group_id is None,
    ensures
        match (fits_element(options, one, element), fits_element(options, other, element)) {
            (Ok((fits, after)), Ok((also_fits, also_after))) => {
                &&& is_alike(after, also_after)
                &&& (fits == Fits::Yes) == (also_fits == Fits::Yes)
            },
            _ => true,
        },
{
}

/// If measuring what is left of an item once came to its end, it does so again wherever the item
/// fits.
proof fn lemma_rest_measured_again(
    options: PrinterOptions,
    one: FitsView,
    other: FitsView,
    depth: usize,
    outer: Seq<StackFrame>,
    upper: Seq<TagKind>,
    part: Seq<FormatElement>,
    behind: Seq<FormatElement>,
)
    requires
        is_alike(one, other),
        measures_part(one, outer, seq![TagKind::Entry] + upper, part, behind),
        closes(part, seq![TagKind::Entry] + upper),
        is_reliable(part, true),
        depth == 1 + count_of(upper, TagKind::Entry),
        fits_content(options, one, FitsEnd::Entry { depth }) matches Ok((_, _, end)) && end is Done,
        fits_content(options, other, FitsEnd::Entry { depth }) matches Ok((fits, _, _)) && fits,
    ensures
        fits_content(options, other, FitsEnd::Entry { depth }) matches Ok((_, _, end))
            && end is Done,
    decreases total_size(one.queue),
{
    let open = seq![TagKind::Entry] + upper;
    let element = part[0];
    let popped = FitsView { queue: one.queue.drop_first(), ..one };
    let also_popped = FitsView { queue: other.queue.drop_first(), ..other };
    lemma_fits_element_progress(options, one);
    lemma_element_measures(options, one, outer, open, part, behind);
    lemma_alike_behind(options, popped, also_popped, element);
    if let Ok((Fits::Maybe, after)) = fits_element(options, popped, element) {
        let (inside, next) = choose|inside: Seq<TagKind>, next: Seq<FormatElement>| #[trigger]
            measures_on(after, outer, open, inside, part, next, behind);
        if let Ok((Fits::Maybe, also_after)) = fits_element(options, also_popped, element) {
            if !(element == FormatElement::Tag(Tag::EndEntry) && depth == 1) {
                lemma_entries_in_open(element, upper, inside);
                assert(inside =~= seq![TagKind::Entry] + inside.skip(1));
                lemma_rest_measured_again(
                    options,
                    after,
                    also_after,
                    depth_behind(element, depth as nat) as usize,
                    outer,
                    inside.skip(1),
                    next,
                    behind,
                );
            }
        }
    }
}

/// Whether the next item was found to fit, with a separator behind it.
pub open spec fn item_fits(options: PrinterOptions, view: FitsView) -> bool {
    fits_entry(options, view, PrintMode::Flat) matches Ok((fits, after)) && fits && next_is(
        after.queue,
        Tag::StartEntry,
    )
}

/// If an item was once measured up to its end, it is measured up to its end wherever it fits.
proof fn lemma_item_measured_again(
    options: PrinterOptions,
    one: FitsView,
    other: FitsView,
    entry: Seq<FormatElement>,
    behind: Seq<FormatElement>,
)
    requires
        is_alike(one, other),
        one.queue == entry + behind,
        is_entry(entry),
        lays_out(entry, Seq::empty()),
        is_reliable(entry, true),
        item_fits(options, one),
    ensures
        fits_entry(options, other, PrintMode::Flat) matches Ok((fits, after)) ==> (fits
            ==> after.queue == behind && after.stack == other.stack),
{
    let mode = PrintMode::Flat;
    let start = entering_entry(one, mode);
    let also_start = entering_entry(other, mode);
    let none: Seq<TagKind> = Seq::empty();
    assert(seq![TagKind::Entry] + none =~= seq![TagKind::Entry]);
    assert(one.queue[0] == entry[0]);
    lemma_entry_measures(options, one, mode, entry, behind, true);
    lemma_entry_measures(options, other, mode, entry, behind, true);
    lemma_entered(options, start, entry, behind);
    lemma_entered(options, also_start, entry, behind);
    assert(also_start.stack.drop_last() =~= other.stack);
    if let Ok((true, after)) = fits_entry(options, other, mode) {
        lemma_rest_measured_again(
            options,
            entered(start),
            entered(also_start),
            1,
            start.stack,
            none,
            entry.drop_first(),
            behind,
        );
    }
}

/// What comes behind so many entries.
pub open spec fn behind_entries(elements: Seq<FormatElement>, count: nat) -> Seq<FormatElement>
    decreases count,
{
    if count == 0 {
        elements
    } else {
        behind_entries(elements.skip(entry_length(elements)), (count - 1) as nat)
    }
}

/// Whether at least so many entries come next.
pub open spec fn entries_follow(elements: Seq<FormatElement>, count: nat) -> bool
    decreases count,
{
    count == 0 || (next_is(elements, Tag::StartEntry) && entries_follow(
        elements.skip(entry_length(elements)),
        (count - 1) as nat,
    ))
}

/// Whether the pairs of a line of a fill are there, and one more item. Where it is to be found out
/// whether that item is printed in flat mode, it is known to fit, and a separator comes behind it.
pub open spec fn line_follows(
    options: PrinterOptions,
    item: FitsView,
    pairs: nat,
    layout: FillPairLayout,
) -> bool {
    &&& entries_follow(item.queue, 2 * pairs + 1)
    &&& layout == FillPairLayout::ItemMaybeFlat ==> {
        &&& entries_follow(item.queue, 2 * pairs + 2)
        &&& exists|last: FitsView| #[trigger]
            item_fits(options, last) && last.queue == behind_entries(item.queue, 2 * pairs)
                && last.stack == item.stack && last.must_be_flat
    }
}

/// An entry of a fill comes before what is left of the fill.
pub proof fn lemma_next_of_fill(elements: Seq<FormatElement>, is_item: bool)
    requires
        fill_follows(elements, is_item),
        next_is(elements, Tag::StartEntry),
    ensures
        ({
            let length = entry_length(elements);
            let entry = elements.take(length);
            &&& entry_ends_at(elements, length)
            &&& elements[0] == FormatElement::Tag(Tag::StartEntry)
            &&& elements == entry + elements.skip(length)
            &&& is_entry(entry)
            &&& lays_out(entry, Seq::empty())
            &&& is_reliable(entry, is_item)
            &&& !is_item ==> is_quiet(entry)
            &&& fill_follows(elements.skip(length), !is_item)
        }),
{
    let length = entry_length(elements);
    assert(elements[0] == elements.take(length)[0]);
    assert(elements =~= elements.take(length) + elements.skip(length));
}

/// Measuring an entry of a fill finds no error.
proof fn lemma_fill_entry_measures(
    options: PrinterOptions,
    view: FitsView,
    mode: PrintMode,
    is_item: bool,
)
    requires
        fill_follows(view.queue, is_item),
        next_is(view.queue, Tag::StartEntry),
        view.must_be_flat,
    ensures
        match fits_entry(options, view, mode) {
            Ok((fits, after)) => {
                &&& after.must_be_flat
                &&& fits && next_is(after.queue, Tag::StartEntry) ==> {
                    &&& after.queue == view.queue.skip(entry_length(view.queue))
                    &&& after.stack == view.stack
                    &&& fill_follows(after.queue, !is_item)
                }
            },
            Err(stop) => stop is Unsupported,
        },
{
    let length = entry_length(view.queue);
    lemma_next_of_fill(view.queue, is_item);
    lemma_entry_measures(
        options,
        view,
        mode,
        view.queue.take(length),
        view.queue.skip(length),
        is_item,
    );
}

/// Measuring the pairs behind an item that fits finds no error, and no more pairs than there are.
proof fn lemma_flat_pairs_measure(
    options: PrinterOptions,
    item: FitsView,
    view: FitsView,
    count: nat,
)
    requires
        fill_follows(item.queue, true),
        next_is(item.queue, Tag::StartEntry),
        item.must_be_flat,
        fits_entry(options, item, PrintMode::Flat) == Ok::<(bool, FitsView), Stop<FitsView>>(
            (true, view),
        ),
    ensures
        match flat_pairs(options, view, count) {
            Ok((pairs, layout, _)) => {
                &&& pairs >= count
                &&& line_follows(options, item, (pairs - count) as nat, layout)
            },
            Err(stop) => stop is Unsupported,
        },
    decreases total_size(view.queue),
{
    let behind = item.queue.skip(entry_length(item.queue));
    lemma_fill_entry_measures(options, item, PrintMode::Flat, true);
    assert(entries_follow(item.queue, 1)) by {
        reveal_with_fuel(entries_follow, 2);
    }
    if next_is(view.queue, Tag::StartEntry) {
        assert(entries_follow(item.queue, 2)) by {
            reveal_with_fuel(entries_follow, 3);
        }
        assert(behind_entries(item.queue, 0) == item.queue);
        assert(item_fits(options, item));
        lemma_fits_entry_size(options, view, PrintMode::Flat);
        lemma_fill_entry_measures(options, view, PrintMode::Flat, false);
        if let Ok((true, separated)) = fits_entry(options, view, PrintMode::Flat) {
            if next_is(separated.queue, Tag::StartEntry) {
                lemma_fits_entry_size(options, separated, PrintMode::Flat);
                lemma_fill_entry_measures(options, separated, PrintMode::Flat, true);
                if let Ok((true, after)) = fits_entry(options, separated, PrintMode::Flat) {
                    lemma_flat_pairs_measure(options, separated, after, count + 1);
                    if let Ok((pairs, layout, _)) = flat_pairs(options, after, count + 1) {
                        assert(separated.queue == behind_entries(item.queue, 2)) by {
                            reveal_with_fuel(behind_entries, 3);
                        }
                        lemma_line_behind_pair(
                            options,
                            item,
                            separated,
                            (pairs - count) as nat,
                            layout,
                        );
                    }
                }
            }
        }
    }
}

/// A line of a fill that starts with a pair goes on behind it.
proof fn lemma_line_behind_pair(
    options: PrinterOptions,
    item: FitsView,
    next: FitsView,
    pairs: nat,
    layout: FillPairLayout,
)
    requires
        pairs > 0,
        entries_follow(item.queue, 2),
        next.queue == behind_entries(item.queue, 2),
        next.stack == item.stack,
        line_follows(options, next, (pairs - 1) as nat, layout),
    ensures
        line_follows(options, item, pairs, layout),
{
    let behind = item.queue.skip(entry_length(item.queue));
    let rest = behind.skip(entry_length(behind));
    reveal_with_fuel(entries_follow, 3);
    reveal_with_fuel(behind_entries, 3);
    assert(rest == next.queue);
    assert(entries_follow(item.queue, 2 * pairs + 1));
    if layout == FillPairLayout::ItemMaybeFlat {
        assert(entries_follow(item.queue, 2 * pairs + 2));
        let last = choose|last: FitsView| #[trigger]
            item_fits(options, last) && last.queue == behind_entries(
                next.queue,
                2 * ((pairs - 1) as nat),
            ) && last.stack == next.stack && last.must_be_flat;
        assert(last.queue == behind_entries(item.queue, 2 * pairs));
    }
}

/// Measuring how many pairs fit on a line of a fill finds no error, and no more pairs than there
/// are.
pub proof fn lemma_pairs_measure(options: PrinterOptions, view: FitsView)
    requires
        fill_follows(view.queue, true),
        next_is(view.queue, Tag::StartEntry),
        view.must_be_flat,
    ensures
        match pairs_layout(options, view) {
            Ok((pairs, layout, _)) => line_follows(options, view, pairs, layout),
            Err(stop) => stop is Unsupported,
        },
{
    lemma_fill_entry_measures(options, view, PrintMode::Flat, true);
    match fits_entry(options, view, PrintMode::Flat) {
        Ok((true, after)) => {
            lemma_flat_pairs_measure(options, view, after, 0);
        },
        _ => {
            reveal_with_fuel(entries_follow, 2);
        },
    }
}

/// Finding out the mode of an item that is known to fit, with a separator behind it, finds no
/// error.
pub proof fn lemma_mode_before_separator(
    options: PrinterOptions,
    view: FitsView,
    known: FitsView,
)
    requires
        fill_follows(view.queue, true),
        entries_follow(view.queue, 2),
        is_alike(known, view),
        item_fits(options, known),
    ensures
        mode_before_separator(options, view) matches Err(stop) ==> stop is Unsupported,
{
    let length = entry_length(view.queue);
    reveal_with_fuel(entries_follow, 3);
    lemma_next_of_fill(view.queue, true);
    lemma_fill_entry_measures(options, view, PrintMode::Flat, true);
    lemma_item_measured_again(
        options,
        known,
        view,
        view.queue.take(length),
        view.queue.skip(length),
    );
    if let Ok((true, after)) = fits_entry(options, view, PrintMode::Flat) {
        lemma_fill_entry_measures(options, after, PrintMode::Expanded, false);
    }
}

} // verus!
