//! The parts of a document nest: what starts inside of a part ends inside of it.

use crate::format_element::{
    element_size, lemma_element_counts, lemma_first_counts, lemma_variant_counts, total_size,
    BestFittingElement, FormatElement, LineMode,
};
use crate::options::PrinterOptions;
use crate::printer::call_stack::{
    push_frame, top_args, PrintElementArgs, StackFrame, StackFrameKind,
};
use crate::printer::laws::lines::lemma_elements_queued;
use crate::printer::line_suffixes::{suffix_entries, SuffixEntry};
use crate::printer::machine::{
    entries_queued, flushed, has_entries, lemma_break_keeps_suffixes, lemma_text_keeps_suffixes,
    print_plain, print_start, Machine,
};
use crate::printer::outcome::{
    advanced, best_variant, depth_behind, fill_layout, item_mode, lemma_best_variant,
    lemma_chosen_variant, lemma_element_progress, lemma_popped_remaining, not_behind, print_element,
    print_entry, print_entry_rest, print_fill, print_fill_line, print_flat_pairs, print_last_pair,
    separator_mode, FillPairLayout,
};
use crate::printer::queue::{lemma_pop_size, next_is, split_content};
use crate::printer::state::Stop;
use crate::tag::{PrintMode, Tag, TagKind};
use vstd::prelude::*;

verus! {

/// Whether the elements are what is left of nested parts of the given kinds, the innermost last, with
/// other parts behind: they end all of these parts and whatever starts inside of them or behind
/// them. Shared content is complete in itself, and so is every variant of a best fitting element,
/// which is a single entry.
pub open spec fn nests(elements: Seq<FormatElement>, open: Seq<TagKind>) -> bool
    decreases total_size(elements) + 1, 0nat,
{
    if elements.len() == 0 {
        open.len() == 0
    } else {
        let rest = elements.drop_first();
        proof {
            lemma_pop_size(elements);
            lemma_first_counts(elements);
            lemma_element_counts(elements[0]);
        }
        match elements[0] {
            FormatElement::Interned(content) => nests(content@, Seq::empty()) && nests(rest, open),
            FormatElement::BestFitting(best_fitting) => {
                &&& variants_close(best_fitting, best_fitting.layouts().len())
                &&& nests(rest, open)
            },
            FormatElement::Tag(tag) => if tag.starts() {
                nests(rest, open.push(tag.marks()))
            } else {
                open.len() > 0 && open.last() == tag.marks() && nests(rest, open.drop_last())
            },
            _ => nests(rest, open),
        }
    }
}

/// Whether the elements are what is left of nested parts of the given kinds, the innermost last, and
/// nothing else: they go no further than to the end of the outermost of these parts.
pub open spec fn closes(elements: Seq<FormatElement>, open: Seq<TagKind>) -> bool
    decreases total_size(elements) + 1, 0nat,
{
    if open.len() == 0 {
        elements.len() == 0
    } else if elements.len() == 0 {
        false
    } else {
        let rest = elements.drop_first();
        proof {
            lemma_pop_size(elements);
            lemma_first_counts(elements);
            lemma_element_counts(elements[0]);
        }
        match elements[0] {
            FormatElement::Interned(content) => nests(content@, Seq::empty()) && closes(
                rest,
                open,
            ),
            FormatElement::BestFitting(best_fitting) => {
                &&& variants_close(best_fitting, best_fitting.layouts().len())
                &&& closes(rest, open)
            },
            FormatElement::Tag(tag) => if tag.starts() {
                closes(rest, open.push(tag.marks()))
            } else {
                open.last() == tag.marks() && closes(rest, open.drop_last())
            },
            _ => closes(rest, open),
        }
    }
}

/// Whether each of the first variants is a single entry.
pub open spec fn variants_close(best_fitting: BestFittingElement, count: nat) -> bool
    decreases element_size(FormatElement::BestFitting(best_fitting)), count,
{
    if count == 0 || count > best_fitting.layouts().len() {
        count == 0
    } else {
        proof {
            let variant = best_fitting.layouts()[count - 1]@;
            lemma_variant_counts(best_fitting, count - 1);
            if variant.len() > 0 {
                lemma_pop_size(variant);
            }
        }
        let variant = best_fitting.layouts()[count - 1]@;
        &&& variant.len() > 0
        &&& variant[0] == FormatElement::Tag(Tag::StartEntry)
        &&& closes(variant.drop_first(), seq![TagKind::Entry])
        &&& variants_close(best_fitting, (count - 1) as nat)
    }
}

/// Whether the elements are a single entry.
pub open spec fn is_entry(elements: Seq<FormatElement>) -> bool {
    &&& elements.len() > 0
    &&& elements[0] == FormatElement::Tag(Tag::StartEntry)
    &&& closes(elements.drop_first(), seq![TagKind::Entry])
}

/// Every variant of a nested best fitting element is a single entry.
pub proof fn lemma_variant_is_entry(best_fitting: BestFittingElement, count: nat, index: int)
    requires
        variants_close(best_fitting, count),
        0 <= index < count,
    ensures
        index < best_fitting.layouts().len(),
        is_entry(best_fitting.layouts()[index]@),
    decreases count,
{
    if index < count - 1 {
        lemma_variant_is_entry(best_fitting, (count - 1) as nat, index);
    }
}

/// Whether the frames of the stack from `base` on are those of the given parts.
pub open spec fn is_open(stack: Seq<StackFrame>, outer: Seq<StackFrame>, open: Seq<TagKind>) -> bool {
    &&& stack.len() == outer.len() + open.len()
    &&& forall|i: int| 0 <= i < outer.len() ==> #[trigger] stack[i] == outer[i]
    &&& forall|i: int|
        outer.len() <= i < stack.len() ==> (#[trigger] stack[i]).kind == StackFrameKind::Tag(
            open[i - outer.len()],
        )
}

/// So many line suffixes inside of each other.
pub open spec fn line_suffixes(count: nat) -> Seq<TagKind> {
    Seq::new(count, |i: int| TagKind::LineSuffix)
}

/// Whether the pending line suffixes end what starts inside of them.
pub open spec fn pending_closes(entries: Seq<SuffixEntry>) -> bool {
    let (frames, elements) = entries_queued(entries, Seq::empty(), Seq::empty());
    closes(elements, line_suffixes(frames.len()))
}

/// Whether the printer is inside of the given parts, with `elements` up to their end and `rest`
/// behind.
pub open spec fn is_inside(
    machine: Machine,
    elements: Seq<FormatElement>,
    rest: Seq<FormatElement>,
    outer: Seq<StackFrame>,
    open: Seq<TagKind>,
) -> bool {
    &&& machine.queue == elements + rest
    &&& is_open(machine.stack, outer, open)
    &&& closes(elements, open)
    &&& pending_closes(machine.state.line_suffixes)
}

/// What ends inner parts, and behind it what ends outer parts, ends all of them.
pub proof fn lemma_closes_concat(
    inner: Seq<FormatElement>,
    outer: Seq<FormatElement>,
    inner_open: Seq<TagKind>,
    outer_open: Seq<TagKind>,
)
    requires
        closes(inner, inner_open),
        closes(outer, outer_open),
    ensures
        closes(inner + outer, outer_open + inner_open),
    decreases total_size(inner),
{
    let open = outer_open + inner_open;
    if inner_open.len() == 0 {
        assert(inner + outer =~= outer);
        assert(open =~= outer_open);
    } else {
        let rest = inner.drop_first();
        lemma_pop_size(inner);
        assert((inner + outer)[0] == inner[0]);
        assert((inner + outer).drop_first() =~= rest + outer);
        assert(open.last() == inner_open.last());
        match inner[0] {
            FormatElement::Tag(tag) => {
                if tag.starts() {
                    assert(open.push(tag.marks()) =~= outer_open + inner_open.push(tag.marks()));
                    lemma_closes_concat(rest, outer, inner_open.push(tag.marks()), outer_open);
                } else {
                    assert(open.drop_last() =~= outer_open + inner_open.drop_last());
                    lemma_closes_concat(rest, outer, inner_open.drop_last(), outer_open);
                }
            },
            _ => {
                lemma_closes_concat(rest, outer, inner_open, outer_open);
            },
        }
    }
}

/// Complete parts, and behind them what ends other parts, end these parts.
pub proof fn lemma_nests_closes(
    inner: Seq<FormatElement>,
    outer: Seq<FormatElement>,
    inner_open: Seq<TagKind>,
    outer_open: Seq<TagKind>,
)
    requires
        nests(inner, inner_open),
        closes(outer, outer_open),
        outer_open.len() > 0,
    ensures
        closes(inner + outer, outer_open + inner_open),
    decreases inner.len(),
{
    let open = outer_open + inner_open;
    if inner.len() == 0 {
        assert(inner + outer =~= outer);
        assert(open =~= outer_open);
    } else {
        let rest = inner.drop_first();
        assert((inner + outer)[0] == inner[0]);
        assert((inner + outer).drop_first() =~= rest + outer);
        match inner[0] {
            FormatElement::Tag(tag) => {
                if tag.starts() {
                    assert(open.push(tag.marks()) =~= outer_open + inner_open.push(tag.marks()));
                    lemma_nests_closes(rest, outer, inner_open.push(tag.marks()), outer_open);
                } else {
                    assert(open.last() == inner_open.last());
                    assert(open.drop_last() =~= outer_open + inner_open.drop_last());
                    lemma_nests_closes(rest, outer, inner_open.drop_last(), outer_open);
                }
            },
            _ => {
                lemma_nests_closes(rest, outer, inner_open, outer_open);
            },
        }
    }
}

/// What ends nested parts ends the inner ones first, and the outer ones behind them.
pub proof fn lemma_closes_apart(
    elements: Seq<FormatElement>,
    lower: Seq<TagKind>,
    upper: Seq<TagKind>,
) -> (length: int)
    requires
        closes(elements, lower + upper),
    ensures
        0 <= length <= elements.len(),
        closes(elements.take(length), upper),
        closes(elements.skip(length), lower),
    decreases elements.len(),
{
    let open = lower + upper;
    if upper.len() == 0 {
        assert(elements.skip(0) =~= elements);
        assert(open =~= lower);
        0
    } else {
        let rest = elements.drop_first();
        assert(open.last() == upper.last());
        let length = match elements[0] {
            FormatElement::Tag(tag) => if tag.starts() {
                assert(open.push(tag.marks()) =~= lower + upper.push(tag.marks()));
                lemma_closes_apart(rest, lower, upper.push(tag.marks()))
            } else {
                assert(open.drop_last() =~= lower + upper.drop_last());
                lemma_closes_apart(rest, lower, upper.drop_last())
            },
            _ => lemma_closes_apart(rest, lower, upper),
        };
        let taken = elements.take(length + 1);
        assert(taken[0] == elements[0]);
        assert(taken.drop_first() =~= rest.take(length));
        assert(elements.skip(length + 1) =~= rest.skip(length));
        length + 1
    }
}

/// How many of the parts are of the given kind.
pub open spec fn count_of(kinds: Seq<TagKind>, kind: TagKind) -> nat
    decreases kinds.len(),
{
    if kinds.len() == 0 {
        0
    } else {
        count_of(kinds.drop_last(), kind) + (if kinds.last() == kind {
            1nat
        } else {
            0
        })
    }
}

/// Content that is taken out of nested elements ends what starts inside of it, and what is left behind
/// it ends the parts around it.
pub proof fn lemma_split_closes(
    elements: Seq<FormatElement>,
    rest: Seq<FormatElement>,
    lower: Seq<TagKind>,
    kind: TagKind,
    upper: Seq<TagKind>,
)
    requires
        closes(elements, lower.push(kind) + upper),
    ensures
        split_content(elements + rest, kind, 1 + count_of(upper, kind)) matches Some((content, left))
            ==> exists|behind: Seq<FormatElement>, end: Tag|
            {
                &&& left == behind + rest
                &&& #[trigger] closes(behind, lower)
                &&& !end.starts() && end.marks() == kind
                &&& #[trigger] closes(
                    content.push(FormatElement::Tag(end)),
                    seq![kind] + upper,
                )
            },
    decreases total_size(elements),
{
    let open = lower.push(kind) + upper;
    let all = elements + rest;
    let depth = 1 + count_of(upper, kind);
    let others = elements.drop_first();
    let inner = seq![kind] + upper;
    lemma_pop_size(elements);
    assert(all[0] == elements[0]);
    assert(all.drop_first() =~= others + rest);
    assert(open.last() == inner.last());
    match elements[0] {
        FormatElement::Interned(interned) => {
            assert(interned@ + (others + rest) =~= (interned@ + others) + rest);
            lemma_nests_closes(interned@, others, Seq::empty(), open);
            assert(open + Seq::<TagKind>::empty() =~= open);
            lemma_split_closes(interned@ + others, rest, lower, kind, upper);
        },
        FormatElement::Tag(tag) => {
            if tag.starts() {
                let next = upper.push(tag.marks());
                assert(open.push(tag.marks()) =~= lower.push(kind) + next);
                assert(next.drop_last() =~= upper);
                lemma_split_closes(others, rest, lower, kind, next);
                if let Some((content, left)) = split_content(all, kind, depth) {
                    let (inside, _) = split_content(
                        others + rest,
                        kind,
                        1 + count_of(next, kind),
                    )->Some_0;
                    let (behind, end) = choose|behind: Seq<FormatElement>, end: Tag|
                        {
                            &&& left == behind + rest
                            &&& #[trigger] closes(behind, lower)
                            &&& !end.starts() && end.marks() == kind
                            &&& #[trigger] closes(
                                inside.push(FormatElement::Tag(end)),
                                seq![kind] + next,
                            )
                        };
                    assert(content == seq![elements[0]] + inside);
                    assert(inner.push(tag.marks()) =~= seq![kind] + next);
                    lemma_closes_with_first(
                        elements[0],
                        inside.push(FormatElement::Tag(end)),
                        content.push(FormatElement::Tag(end)),
                        inner,
                    );
                }
            } else if upper.len() == 0 {
                assert(inner =~= seq![kind]);
                assert(open.drop_last() =~= lower);
                assert(tag.marks() == kind);
                if let Some((content, left)) = split_content(all, kind, depth) {
                    assert(content =~= Seq::empty());
                    let single = content.push(elements[0]);
                    assert(single.drop_first() =~= Seq::empty());
                    assert(inner.drop_last() =~= Seq::empty());
                    assert(closes(single.drop_first(), inner.drop_last()));
                    assert(closes(single, inner));
                    assert(closes(others, lower));
                    assert(left == others + rest);
                }
            } else {
                let next = upper.drop_last();
                assert(open.drop_last() =~= lower.push(kind) + next);
                assert(upper.last() == tag.marks());
                lemma_split_closes(others, rest, lower, kind, next);
                if let Some((content, left)) = split_content(all, kind, depth) {
                    let (inside, _) = split_content(
                        others + rest,
                        kind,
                        1 + count_of(next, kind),
                    )->Some_0;
                    let (behind, end) = choose|behind: Seq<FormatElement>, end: Tag|
                        {
                            &&& left == behind + rest
                            &&& #[trigger] closes(behind, lower)
                            &&& !end.starts() && end.marks() == kind
                            &&& #[trigger] closes(
                                inside.push(FormatElement::Tag(end)),
                                seq![kind] + next,
                            )
                        };
                    assert(content == seq![elements[0]] + inside);
                    assert(inner.drop_last() =~= seq![kind] + next);
                    lemma_closes_with_first(
                        elements[0],
                        inside.push(FormatElement::Tag(end)),
                        content.push(FormatElement::Tag(end)),
                        inner,
                    );
                }
            }
        },
        _ => {
            lemma_split_closes(others, rest, lower, kind, upper);
            if let Some((content, left)) = split_content(all, kind, depth) {
                let (inside, _) = split_content(others + rest, kind, depth)->Some_0;
                let (behind, end) = choose|behind: Seq<FormatElement>, end: Tag|
                    {
                        &&& left == behind + rest
                        &&& #[trigger] closes(behind, lower)
                        &&& !end.starts() && end.marks() == kind
                        &&& #[trigger] closes(
                            inside.push(FormatElement::Tag(end)),
                            seq![kind] + upper,
                        )
                    };
                assert(content == seq![elements[0]] + inside);
                lemma_closes_with_first(
                    elements[0],
                    inside.push(FormatElement::Tag(end)),
                    content.push(FormatElement::Tag(end)),
                    inner,
                );
            }
        },
    }
}

/// What ends the parts that are open behind an element ends those before it, with the element in
/// front.
proof fn lemma_closes_with_first(
    first: FormatElement,
    others: Seq<FormatElement>,
    all: Seq<FormatElement>,
    open: Seq<TagKind>,
)
    requires
        open.len() > 0,
        all =~= seq![first] + others,
        !(first is Interned),
        match first {
            FormatElement::Tag(tag) => if tag.starts() {
                closes(others, open.push(tag.marks()))
            } else {
                open.last() == tag.marks() && closes(others, open.drop_last())
            },
            FormatElement::BestFitting(best_fitting) => closes(others, open) && variants_close(
                best_fitting,
                best_fitting.layouts().len(),
            ),
            _ => closes(others, open),
        },
    ensures
        closes(all, open),
{
    assert(all[0] == first);
    assert(all.drop_first() =~= others);
}

/// Queueing the entries of line suffixes adds to what is there.
pub proof fn lemma_entries_queued_apart(
    entries: Seq<SuffixEntry>,
    stack: Seq<StackFrame>,
    queue: Seq<FormatElement>,
)
    ensures
        ({
            let (frames, elements) = entries_queued(entries, Seq::empty(), Seq::empty());
            &&& entries_queued(entries, stack, queue) == (stack + frames, elements + queue)
            &&& forall|i: int|
                0 <= i < frames.len() ==> (#[trigger] frames[i]).kind == StackFrameKind::Tag(
                    TagKind::LineSuffix,
                )
        }),
    decreases entries.len(),
{
    let (frames, elements) = entries_queued(entries, Seq::empty(), Seq::empty());
    if entries.len() == 0 {
        assert(stack + frames =~= stack);
        assert(elements + queue =~= queue);
    } else {
        let before = entries.drop_last();
        let (inner_frames, inner_elements) = entries_queued(before, Seq::empty(), Seq::empty());
        match entries.last() {
            SuffixEntry::Suffix(element) => {
                let single = seq![element];
                lemma_entries_queued_apart(before, stack, single + queue);
                lemma_entries_queued_apart(before, Seq::empty(), single + Seq::empty());
                assert(frames =~= inner_frames);
                assert(elements =~= inner_elements + single);
                assert(inner_elements + (single + queue) =~= elements + queue);
            },
            SuffixEntry::Args(args) => {
                let end = seq![FormatElement::Tag(Tag::EndLineSuffix)];
                let pushed = push_frame(stack, TagKind::LineSuffix, args);
                let first = push_frame(Seq::empty(), TagKind::LineSuffix, args);
                lemma_entries_queued_apart(before, pushed, end + queue);
                lemma_entries_queued_apart(before, first, end + Seq::empty());
                assert(elements =~= inner_elements + end);
                assert(frames =~= first + inner_frames);
                assert(inner_elements + (end + queue) =~= elements + queue);
                assert(pushed + inner_frames =~= stack + frames);
            },
        }
    }
}

/// Queueing goes entry by entry, the last one first.
pub proof fn lemma_entries_queued_concat(
    left: Seq<SuffixEntry>,
    right: Seq<SuffixEntry>,
    stack: Seq<StackFrame>,
    queue: Seq<FormatElement>,
)
    ensures
        entries_queued(left + right, stack, queue) == entries_queued(
            left,
            entries_queued(right, stack, queue).0,
            entries_queued(right, stack, queue).1,
        ),
    decreases right.len(),
{
    if right.len() == 0 {
        assert(left + right =~= left);
    } else {
        assert((left + right).drop_last() =~= left + right.drop_last());
        assert((left + right).last() == right.last());
        match right.last() {
            SuffixEntry::Suffix(element) => {
                lemma_entries_queued_concat(
                    left,
                    right.drop_last(),
                    stack,
                    seq![element] + queue,
                );
            },
            SuffixEntry::Args(args) => {
                lemma_entries_queued_concat(
                    left,
                    right.drop_last(),
                    push_frame(stack, TagKind::LineSuffix, args),
                    seq![FormatElement::Tag(Tag::EndLineSuffix)] + queue,
                );
            },
        }
    }
}

/// Another line suffix that ends what starts inside of it keeps the pending ones nested.
proof fn lemma_pending_extended(
    entries: Seq<SuffixEntry>,
    content: Seq<FormatElement>,
    args: PrintElementArgs,
)
    requires
        pending_closes(entries),
        closes(
            content.push(FormatElement::Tag(Tag::EndLineSuffix)),
            seq![TagKind::LineSuffix],
        ),
    ensures
        pending_closes(entries + suffix_entries(content, args)),
{
    let added = suffix_entries(content, args);
    let end = seq![FormatElement::Tag(Tag::EndLineSuffix)];
    let frame = push_frame(Seq::empty(), TagKind::LineSuffix, args);
    let suffixes = content.map_values(|element: FormatElement| SuffixEntry::Suffix(element));
    assert(added.drop_last() =~= suffixes);
    assert(end + Seq::<FormatElement>::empty() =~= end);
    lemma_elements_queued(content, frame, end);
    assert(entries_queued(added, Seq::empty(), Seq::empty()) == (frame, content + end));
    lemma_entries_queued_concat(entries, added, Seq::empty(), Seq::empty());
    lemma_entries_queued_apart(entries, frame, content + end);
    let (frames, elements) = entries_queued(entries, Seq::empty(), Seq::empty());
    let single = content.push(FormatElement::Tag(Tag::EndLineSuffix));
    assert(content + end =~= single);
    lemma_closes_concat(elements, single, line_suffixes(frames.len()), seq![TagKind::LineSuffix]);
    assert(seq![TagKind::LineSuffix] + line_suffixes(frames.len()) =~= line_suffixes(
        (frame + frames).len(),
    ));
}

/// Flushing the pending line suffixes keeps the printer inside of nested parts.
proof fn lemma_flushed_inside(
    machine: Machine,
    line_break: FormatElement,
    elements: Seq<FormatElement>,
    rest: Seq<FormatElement>,
    outer: Seq<StackFrame>,
    open: Seq<TagKind>,
)
    requires
        is_inside(machine, elements, rest, outer, open),
        open.len() > 0,
        line_break is Line,
    ensures
        exists|next: Seq<FormatElement>, count: nat| #[trigger]
            is_inside(
                flushed(machine, Some(line_break)),
                next,
                rest,
                outer,
                open + line_suffixes(count),
            ),
{
    let entries = machine.state.line_suffixes;
    let after = flushed(machine, Some(line_break));
    if entries.len() == 0 {
        assert(open + line_suffixes(0) =~= open);
        assert(is_inside(after, elements, rest, outer, open + line_suffixes(0)));
    } else {
        let (frames, suffixes) = entries_queued(entries, Seq::empty(), Seq::empty());
        let behind = seq![line_break] + elements;
        lemma_entries_queued_apart(
            entries,
            machine.stack,
            seq![line_break] + machine.queue,
        );
        assert(behind[0] == line_break);
        assert(behind.drop_first() =~= elements);
        assert(closes(behind, open));
        lemma_closes_concat(suffixes, behind, line_suffixes(frames.len()), open);
        assert(suffixes + (seq![line_break] + machine.queue) =~= (suffixes + behind) + rest);
        assert(entries_queued(Seq::empty(), Seq::empty(), Seq::empty()).1 =~= Seq::empty());
        assert(pending_closes(after.state.line_suffixes));
        let inside = open + line_suffixes(frames.len());
        assert forall|i: int| outer.len() <= i < after.stack.len() implies (
        #[trigger] after.stack[i]).kind == StackFrameKind::Tag(inside[i - outer.len()]) by {
            if i < machine.stack.len() {
                assert(after.stack[i] == machine.stack[i]);
            } else {
                assert(after.stack[i] == frames[i - machine.stack.len()]);
            }
        }
        assert(is_inside(after, suffixes + behind, rest, outer, inside));
    }
}

/// What an element does to the parts that are open.
pub open spec fn open_behind(element: FormatElement, before: Seq<TagKind>, after: Seq<TagKind>) -> bool {
    match element {
        FormatElement::Tag(tag) => if tag.starts() {
            ||| after == before && tag != Tag::StartEntry
            ||| after == before.push(tag.marks())
        } else {
            before.last() == tag.marks() && after == before.drop_last()
        },
        FormatElement::Line(_) | FormatElement::LineSuffixBoundary => exists|count: nat| after
            == before + #[trigger] line_suffixes(count),
        _ => after == before,
    }
}

/// Whether the printer is inside of other parts after an element.
pub open spec fn is_inside_behind(
    machine: Machine,
    element: FormatElement,
    rest: Seq<FormatElement>,
    outer: Seq<StackFrame>,
    open: Seq<TagKind>,
) -> bool {
    exists|next: Seq<FormatElement>, inside: Seq<TagKind>|
        open_behind(element, open, inside) && #[trigger] is_inside(
            machine,
            next,
            rest,
            outer,
            inside,
        )
}

/// A start tag keeps the printer inside of nested parts.
proof fn lemma_start_inside(
    options: PrinterOptions,
    machine: Machine,
    tag: Tag,
    elements: Seq<FormatElement>,
    rest: Seq<FormatElement>,
    outer: Seq<StackFrame>,
    open: Seq<TagKind>,
)
    requires
        tag.starts(),
        open.len() > 0,
        machine.queue == elements + rest,
        is_open(machine.stack, outer, open),
        closes(elements, open.push(tag.marks())),
        pending_closes(machine.state.line_suffixes),
    ensures
        print_start(options, machine, tag) matches Ok(after) ==> is_inside_behind(
            after,
            FormatElement::Tag(tag),
            rest,
            outer,
            open,
        ),
{
    let element = FormatElement::Tag(tag);
    let kind = tag.marks();
    let entered = open.push(kind);
    if let Ok(after) = print_start(options, machine, tag) {
        if tag == Tag::StartLineSuffix {
            assert(open.push(kind) + Seq::<TagKind>::empty() =~= entered);
            lemma_split_closes(elements, rest, open, kind, Seq::empty());
            let (content, left) = split_content(machine.queue, kind, 1)->Some_0;
            let (behind, end) = choose|behind: Seq<FormatElement>, end: Tag|
                {
                    &&& left == behind + rest
                    &&& #[trigger] closes(behind, open)
                    &&& !end.starts() && end.marks() == kind
                    &&& #[trigger] closes(
                        content.push(FormatElement::Tag(end)),
                        seq![kind] + Seq::empty(),
                    )
                };
            assert(end == Tag::EndLineSuffix);
            assert(seq![kind] + Seq::<TagKind>::empty() =~= seq![kind]);
            lemma_pending_extended(
                machine.state.line_suffixes,
                content,
                top_args(machine.stack),
            );
            assert(is_inside(after, behind, rest, outer, open));
        } else if after.stack == machine.stack {
            assert(open.push(kind) + Seq::<TagKind>::empty() =~= entered);
            lemma_split_closes(elements, rest, open, kind, Seq::empty());
            let (content, left) = split_content(machine.queue, kind, 1)->Some_0;
            let (behind, end) = choose|behind: Seq<FormatElement>, end: Tag|
                {
                    &&& left == behind + rest
                    &&& #[trigger] closes(behind, open)
                    &&& !end.starts() && end.marks() == kind
                    &&& #[trigger] closes(
                        content.push(FormatElement::Tag(end)),
                        seq![kind] + Seq::empty(),
                    )
                };
            assert(is_inside(after, behind, rest, outer, open));
        } else {
            assert(after.stack.drop_last() =~= machine.stack);
            assert(after.stack.last().kind == StackFrameKind::Tag(kind));
            assert(after.state.line_suffixes == machine.state.line_suffixes);
            assert forall|i: int| outer.len() <= i < after.stack.len() implies (
            #[trigger] after.stack[i]).kind == StackFrameKind::Tag(
                entered[i - outer.len()],
            ) by {
                if i < machine.stack.len() {
                    assert(after.stack[i] == machine.stack[i]);
                }
            }
            assert(is_inside(after, elements, rest, outer, entered));
        }
    }
}

/// An element without entries keeps the printer inside of nested parts.
proof fn lemma_plain_inside(
    options: PrinterOptions,
    machine: Machine,
    elements: Seq<FormatElement>,
    rest: Seq<FormatElement>,
    outer: Seq<StackFrame>,
    open: Seq<TagKind>,
)
    requires
        is_inside(machine, elements, rest, outer, open),
        open.len() > 0,
        !has_entries(elements[0]),
    ensures
        print_plain(options, machine.popped(), elements[0]) matches Ok(after) ==> is_inside_behind(
            after,
            elements[0],
            rest,
            outer,
            open,
        ),
{
    let element = elements[0];
    let others = elements.drop_first();
    let popped = machine.popped();
    assert(machine.queue[0] == element);
    assert(popped.queue =~= others + rest);
    if let Ok(after) = print_plain(options, popped, element) {
        match element {
            FormatElement::StaticText { text } => {
                lemma_text_keeps_suffixes(
                    options,
                    popped.state,
                    text@,
                    None,
                );
                assert(is_inside(after, others, rest, outer, open));
            },
            FormatElement::DynamicText { text, source_position } => {
                lemma_text_keeps_suffixes(
                    options,
                    popped.state,
                    text@,
                    Some(source_position),
                );
                assert(is_inside(after, others, rest, outer, open));
            },
            FormatElement::LocatedTokenText { slice, source_position } => {
                lemma_text_keeps_suffixes(
                    options,
                    popped.state,
                    slice@,
                    Some(source_position),
                );
                assert(is_inside(after, others, rest, outer, open));
            },
            FormatElement::Line(line_mode) => {
                let start = if popped.mode() == PrintMode::Flat {
                    popped.with_measured(false)
                } else {
                    popped
                };
                assert(is_inside(start, others, rest, outer, open));
                lemma_flushed_inside(start, element, others, rest, outer, open);
                lemma_break_keeps_suffixes(
                    options,
                    start.state,
                    line_mode,
                );
                if after == flushed(start, Some(element)) {
                    let (next, count) = choose|next: Seq<FormatElement>, count: nat| #[trigger]
                        is_inside(after, next, rest, outer, open + line_suffixes(count));
                    assert(open_behind(element, open, open + line_suffixes(count)));
                } else {
                    assert(open + line_suffixes(0) =~= open);
                    assert(open_behind(element, open, open));
                    assert(is_inside(after, others, rest, outer, open));
                }
            },
            FormatElement::LineSuffixBoundary => {
                let line_break = FormatElement::Line(LineMode::Hard);
                lemma_flushed_inside(popped, line_break, others, rest, outer, open);
                let (next, count) = choose|next: Seq<FormatElement>, count: nat| #[trigger]
                    is_inside(after, next, rest, outer, open + line_suffixes(count));
                assert(open_behind(element, open, open + line_suffixes(count)));
            },
            FormatElement::Interned(content) => {
                lemma_nests_closes(content@, others, Seq::empty(), open);
                assert(open + Seq::<TagKind>::empty() =~= open);
                assert(content@ + (others + rest) =~= (content@ + others) + rest);
                assert(is_inside(after, content@ + others, rest, outer, open));
            },
            FormatElement::Tag(tag) => {
                if tag.starts() {
                    lemma_start_inside(options, popped, tag, others, rest, outer, open);
                } else {
                    assert(after.stack == popped.stack.drop_last());
                    assert(is_inside(after, others, rest, outer, open.drop_last()));
                }
            },
            _ => {
                assert(is_inside(after, others, rest, outer, open));
            },
        }
    }
}

/// Whether an entry was printed: the queue goes on behind it and the stack is what it was before.
pub open spec fn is_behind_entry(
    before: Machine,
    after: Machine,
    rest: Seq<FormatElement>,
    open: Seq<TagKind>,
) -> bool {
    &&& after.stack == before.stack
    &&& pending_closes(after.state.line_suffixes)
    &&& exists|next: Seq<FormatElement>| after.queue == next + rest && #[trigger] closes(next, open)
}

/// A best fitting element keeps the printer inside of nested parts.
proof fn lemma_best_fitting_inside(
    options: PrinterOptions,
    machine: Machine,
    best_fitting: BestFittingElement,
    elements: Seq<FormatElement>,
    rest: Seq<FormatElement>,
    outer: Seq<StackFrame>,
    open: Seq<TagKind>,
)
    requires
        is_inside(machine, elements, rest, outer, open),
        open.len() > 0,
        elements[0] == FormatElement::BestFitting(best_fitting),
    ensures
        print_element(options, machine.popped(), elements[0]) matches Ok(after) ==> is_inside(
            after,
            elements.drop_first(),
            rest,
            outer,
            open,
        ),
    decreases
        machine.remaining().suffixes,
        machine.remaining().pending,
        machine.remaining().size,
        0nat,
{
    let popped = machine.popped();
    assert(machine.queue[0] == elements[0]);
    assert(popped.queue =~= elements.drop_first() + rest);
    lemma_popped_remaining(machine);
    lemma_best_variant(options, popped, best_fitting);
    if let Ok((start, variant, args)) = best_variant(options, popped, best_fitting) {
        let count = best_fitting.layouts().len();
        lemma_chosen_variant(options, popped.with_measured(true), best_fitting, 0);
        assert(is_entry(variant)) by {
            if popped.mode() == PrintMode::Flat && popped.state.measured_group_fits {
                lemma_variant_is_entry(best_fitting, count, 0);
            } else {
                let i = choose|i: int|
                    0 <= i < count && variant == (#[trigger] best_fitting.layouts()[i])@;
                lemma_variant_is_entry(best_fitting, count, i);
            }
        }
        lemma_entry_inside(options, start.queueing(variant), variant, popped.queue, args);
    }
}

/// Another part on the stack is another part that is open.
proof fn lemma_entering_inside(
    machine: Machine,
    kind: TagKind,
    args: PrintElementArgs,
    outer: Seq<StackFrame>,
    open: Seq<TagKind>,
)
    requires
        is_open(machine.stack, outer, open),
    ensures
        is_open(machine.entering(kind, args).stack, outer, open.push(kind)),
{
    let entered = machine.entering(kind, args);
    let inside = open.push(kind);
    assert forall|i: int| outer.len() <= i < entered.stack.len() implies (
    #[trigger] entered.stack[i]).kind == StackFrameKind::Tag(inside[i - outer.len()]) by {
        if i < machine.stack.len() {
            assert(entered.stack[i] == machine.stack[i]);
        }
    }
}

/// A fill keeps the printer inside of nested parts.
proof fn lemma_start_fill_inside(
    options: PrinterOptions,
    machine: Machine,
    elements: Seq<FormatElement>,
    rest: Seq<FormatElement>,
    outer: Seq<StackFrame>,
    open: Seq<TagKind>,
)
    requires
        is_inside(machine, elements, rest, outer, open),
        open.len() > 0,
        elements[0] == FormatElement::Tag(Tag::StartFill),
    ensures
        print_element(options, machine.popped(), elements[0]) matches Ok(after)
            ==> is_inside_behind(after, elements[0], rest, outer, open),
    decreases
        machine.remaining().suffixes,
        machine.remaining().pending,
        machine.remaining().size,
        0nat,
{
    let element = elements[0];
    let others = elements.drop_first();
    let popped = machine.popped();
    assert(machine.queue[0] == element);
    assert(popped.queue =~= others + rest);
    lemma_popped_remaining(machine);
    let args = top_args(machine.stack);
    let entered = popped.entering(TagKind::Fill, args);
    let inside = open.push(TagKind::Fill);
    lemma_entering_inside(popped, TagKind::Fill, args, outer, open);
    assert(is_inside(entered, others, rest, outer, inside));
    lemma_fill_inside(options, entered, others, rest, inside, args);
    if let Ok(after) = print_element(options, popped, element) {
        if after != entered {
            let next = choose|next: Seq<FormatElement>|
                after.queue == next + rest && #[trigger] closes(next, inside);
            assert(is_inside(after, next, rest, outer, inside));
        }
    }
}

/// An element keeps the printer inside of nested parts.
proof fn lemma_element_inside(
    options: PrinterOptions,
    machine: Machine,
    elements: Seq<FormatElement>,
    rest: Seq<FormatElement>,
    outer: Seq<StackFrame>,
    open: Seq<TagKind>,
)
    requires
        is_inside(machine, elements, rest, outer, open),
        open.len() > 0,
    ensures
        print_element(options, machine.popped(), elements[0]) matches Ok(after)
            ==> is_inside_behind(after, elements[0], rest, outer, open),
    decreases
        machine.remaining().suffixes,
        machine.remaining().pending,
        machine.remaining().size,
        1nat,
{
    match elements[0] {
        FormatElement::BestFitting(best_fitting) => {
            lemma_best_fitting_inside(
                options,
                machine,
                best_fitting,
                elements,
                rest,
                outer,
                open,
            );
            assert(open_behind(elements[0], open, open));
        },
        FormatElement::Tag(Tag::StartFill) => {
            lemma_start_fill_inside(options, machine, elements, rest, outer, open);
        },
        _ => {
            lemma_plain_inside(options, machine, elements, rest, outer, open);
        },
    }
}

/// Printing an entry consumes the entry and nothing else, and leaves the stack as it was.
pub proof fn lemma_entry_inside(
    options: PrinterOptions,
    machine: Machine,
    entry: Seq<FormatElement>,
    rest: Seq<FormatElement>,
    args: PrintElementArgs,
)
    requires
        machine.queue == entry + rest,
        is_entry(entry),
        pending_closes(machine.state.line_suffixes),
    ensures
        print_entry(options, machine, args) matches Ok(after) ==> {
            &&& after.queue == rest
            &&& after.stack == machine.stack
            &&& pending_closes(after.state.line_suffixes)
        },
    decreases
        machine.remaining().suffixes,
        machine.remaining().pending,
        machine.remaining().size,
        3nat,
{
    let popped = machine.popped();
    let inside = popped.entering(TagKind::Entry, args);
    let others = entry.drop_first();
    assert(machine.queue[0] == entry[0]);
    assert(inside.queue =~= others + rest);
    lemma_popped_remaining(machine);
    assert(seq![TagKind::Entry] + Seq::<TagKind>::empty() =~= seq![TagKind::Entry]);
    assert(inside.stack.drop_last() =~= machine.stack);
    lemma_entry_rest_inside(
        options,
        inside,
        others,
        rest,
        args,
        1,
        machine.stack,
        Seq::empty(),
    );
}

/// Printing an entry up to its end consumes what is left of it and nothing else.
proof fn lemma_entry_rest_inside(
    options: PrinterOptions,
    machine: Machine,
    elements: Seq<FormatElement>,
    rest: Seq<FormatElement>,
    args: PrintElementArgs,
    depth: nat,
    outer: Seq<StackFrame>,
    upper: Seq<TagKind>,
)
    requires
        is_inside(machine, elements, rest, outer, seq![TagKind::Entry] + upper),
        depth == 1 + count_of(upper, TagKind::Entry),
    ensures
        print_entry_rest(options, machine, args, depth) matches Ok(after) ==> {
            &&& after.queue == rest
            &&& after.stack == outer
            &&& pending_closes(after.state.line_suffixes)
        },
    decreases
        machine.remaining().suffixes,
        machine.remaining().pending,
        machine.remaining().size,
        2nat,
{
    let open = seq![TagKind::Entry] + upper;
    let element = elements[0];
    let others = elements.drop_first();
    let popped = machine.popped();
    assert(machine.queue[0] == element);
    assert(popped.queue =~= others + rest);
    lemma_popped_remaining(machine);
    if element == FormatElement::Tag(Tag::EndEntry) && depth <= 1 {
        lemma_entry_end_inside(machine, elements, rest, outer, upper);
    } else if !(element == FormatElement::Tag(Tag::StartEntry) && depth >= i32::MAX) {
        lemma_element_inside(options, machine, elements, rest, outer, open);
        lemma_entry_rest_step(options, machine, args, depth);
        if let Ok(after) = advanced(machine.remaining(), print_element(options, popped, element)) {
            let (next, inside) = choose|next: Seq<FormatElement>, inside: Seq<TagKind>|
                open_behind(element, open, inside) && #[trigger] is_inside(
                    after,
                    next,
                    rest,
                    outer,
                    inside,
                );
            lemma_entries_in_open(element, upper, inside);
            let above = inside.skip(1);
            assert(inside =~= seq![TagKind::Entry] + above);
            lemma_entry_rest_inside(
                options,
                after,
                next,
                rest,
                args,
                depth_behind(element, depth),
                outer,
                above,
            );
        }
    }
}

/// The end of an entry leads out of it.
proof fn lemma_entry_end_inside(
    machine: Machine,
    elements: Seq<FormatElement>,
    rest: Seq<FormatElement>,
    outer: Seq<StackFrame>,
    upper: Seq<TagKind>,
)
    requires
        is_inside(machine, elements, rest, outer, seq![TagKind::Entry] + upper),
        count_of(upper, TagKind::Entry) == 0,
        elements.len() > 0,
        elements[0] == FormatElement::Tag(Tag::EndEntry),
    ensures
        machine.popped().leaving(TagKind::Entry) matches Ok(after) ==> {
            &&& after.queue == rest
            &&& after.stack == outer
            &&& after.state == machine.state
        },
{
    let open = seq![TagKind::Entry] + upper;
    let others = elements.drop_first();
    assert(upper.len() == 0) by {
        if upper.len() > 0 {
            assert(open.last() == upper.last());
        }
    }
    assert(open.drop_last() =~= Seq::empty());
    assert(closes(others, open.drop_last()));
    assert(others.len() == 0);
    if let Ok(after) = machine.popped().leaving(TagKind::Entry) {
        assert(after.stack =~= outer);
        assert(after.queue =~= rest);
    }
}

/// Printing an entry up to its end goes on behind the next element.
pub proof fn lemma_entry_rest_step(
    options: PrinterOptions,
    machine: Machine,
    args: PrintElementArgs,
    depth: nat,
)
    requires
        machine.queue.len() > 0,
        depth > 0,
        !(machine.queue[0] == FormatElement::Tag(Tag::EndEntry) && depth <= 1),
        !(machine.queue[0] == FormatElement::Tag(Tag::StartEntry) && depth >= i32::MAX),
    ensures
        print_entry_rest(options, machine, args, depth) == (match advanced(
            machine.remaining(),
            print_element(options, machine.popped(), machine.queue[0]),
        ) {
            Ok(after) => print_entry_rest(
                options,
                after,
                args,
                depth_behind(machine.queue[0], depth),
            ),
            Err(halt) => Err(halt),
        }),
{
}

/// The number of open entries changes with the start and the end of entries only.
pub proof fn lemma_entries_in_open(element: FormatElement, upper: Seq<TagKind>, inside: Seq<TagKind>)
    requires
        open_behind(element, seq![TagKind::Entry] + upper, inside),
        element == FormatElement::Tag(Tag::EndEntry) ==> count_of(upper, TagKind::Entry) > 0,
    ensures
        inside.len() > 0,
        inside[0] == TagKind::Entry,
        1 + count_of(inside.skip(1), TagKind::Entry) == depth_behind(
            element,
            1 + count_of(upper, TagKind::Entry),
        ),
{
    let open = seq![TagKind::Entry] + upper;
    assert(open.skip(1) =~= upper);
    match element {
        FormatElement::Tag(tag) => {
            if tag.starts() {
                if inside != open {
                    let above = inside.skip(1);
                    assert(above =~= upper.push(tag.marks()));
                    assert(above.drop_last() =~= upper);
                }
            } else {
                if upper.len() == 0 {
                    assert(open.last() == TagKind::Entry);
                    assert(count_of(upper, TagKind::Entry) == 0);
                }
                assert(inside.skip(1) =~= upper.drop_last());
                assert(open.last() == upper.last());
            }
        },
        FormatElement::Line(_) | FormatElement::LineSuffixBoundary => {
            let count = choose|count: nat| inside == open + #[trigger] line_suffixes(count);
            assert(inside.skip(1) =~= upper + line_suffixes(count));
            lemma_count_with_suffixes(upper, count);
        },
        _ => {},
    }
}

proof fn lemma_count_with_suffixes(kinds: Seq<TagKind>, count: nat)
    ensures
        count_of(kinds + line_suffixes(count), TagKind::Entry) == count_of(kinds, TagKind::Entry),
    decreases count,
{
    let all = kinds + line_suffixes(count);
    if count == 0 {
        assert(all =~= kinds);
    } else {
        assert(all.drop_last() =~= kinds + line_suffixes((count - 1) as nat));
        assert(all.last() == TagKind::LineSuffix);
        lemma_count_with_suffixes(kinds, (count - 1) as nat);
    }
}

/// Printing an entry in shared content is printing the entry in its place.
proof fn lemma_interned_entry(
    options: PrinterOptions,
    machine: Machine,
    args: PrintElementArgs,
    content: Seq<FormatElement>,
)
    requires
        machine.queue.len() > 0,
        machine.queue[0] matches FormatElement::Interned(shared) && shared@ == content,
        next_is(machine.queue, Tag::StartEntry),
    ensures
        print_entry(options, machine, args) == print_entry(
            options,
            machine.popped().queueing(content),
            args,
        ),
        machine.popped().queueing(content).remaining().less(machine.remaining()),
{
    let popped = machine.popped();
    let queued = popped.queueing(content);
    lemma_popped_remaining(machine);
    lemma_element_progress(options, popped, machine.queue[0]);
    assert(print_element(options, popped, machine.queue[0]) == Ok::<Machine, Stop<Machine>>(queued));
    assert(next_is(queued.queue, Tag::StartEntry));
    assert(print_entry_rest(options, machine, args, 0) == print_entry_rest(
        options,
        queued,
        args,
        0,
    ));
}

/// Printing the next entry of nested elements goes on behind that entry.
proof fn lemma_next_entry_inside(
    options: PrinterOptions,
    machine: Machine,
    elements: Seq<FormatElement>,
    rest: Seq<FormatElement>,
    open: Seq<TagKind>,
    args: PrintElementArgs,
)
    requires
        machine.queue == elements + rest,
        closes(elements, open),
        open.len() > 0,
        pending_closes(machine.state.line_suffixes),
    ensures
        print_entry(options, machine, args) matches Ok(after) ==> is_behind_entry(
            machine,
            after,
            rest,
            open,
        ),
    decreases
        machine.remaining().suffixes,
        machine.remaining().pending,
        machine.remaining().size,
        4nat,
{
    let element = elements[0];
    let others = elements.drop_first();
    let popped = machine.popped();
    assert(machine.queue[0] == element);
    assert(popped.queue =~= others + rest);
    lemma_popped_remaining(machine);
    if next_is(machine.queue, Tag::StartEntry) {
        match element {
            FormatElement::Interned(content) => {
                let queued = popped.queueing(content@);
                lemma_nests_closes(content@, others, Seq::empty(), open);
                assert(open + Seq::<TagKind>::empty() =~= open);
                assert(queued.queue =~= (content@ + others) + rest);
                lemma_interned_entry(options, machine, args, content@);
                lemma_next_entry_inside(
                    options,
                    queued,
                    content@ + others,
                    rest,
                    open,
                    args,
                );
            },
            _ => {
                assert(element == FormatElement::Tag(Tag::StartEntry));
                assert(open.push(TagKind::Entry) =~= open + seq![TagKind::Entry]);
                let length = lemma_closes_apart(others, open, seq![TagKind::Entry]);
                let entry = seq![element] + others.take(length);
                let behind = others.skip(length);
                assert(entry.drop_first() =~= others.take(length));
                assert(machine.queue =~= entry + (behind + rest));
                lemma_entry_inside(options, machine, entry, behind + rest, args);
            },
        }
    }
}

proof fn lemma_fill_inside(
    options: PrinterOptions,
    machine: Machine,
    elements: Seq<FormatElement>,
    rest: Seq<FormatElement>,
    open: Seq<TagKind>,
    args: PrintElementArgs,
)
    requires
        machine.queue == elements + rest,
        closes(elements, open),
        open.len() > 0,
        pending_closes(machine.state.line_suffixes),
    ensures
        print_fill(options, machine, args) matches Ok(after) ==> is_behind_entry(
            machine,
            after,
            rest,
            open,
        ),
    decreases
        machine.remaining().suffixes,
        machine.remaining().pending,
        machine.remaining().size,
        8nat,
{
    if next_is(machine.queue, Tag::StartEntry) {
        lemma_fill_line_inside(options, machine, elements, rest, open, args);
        if let Ok(after) = advanced(machine.remaining(), print_fill_line(options, machine, args)) {
            let next = choose|next: Seq<FormatElement>|
                after.queue == next + rest && #[trigger] closes(next, open);
            lemma_fill_inside(options, after, next, rest, open, args);
        }
    }
}

proof fn lemma_fill_line_inside(
    options: PrinterOptions,
    machine: Machine,
    elements: Seq<FormatElement>,
    rest: Seq<FormatElement>,
    open: Seq<TagKind>,
    args: PrintElementArgs,
)
    requires
        machine.queue == elements + rest,
        closes(elements, open),
        open.len() > 0,
        pending_closes(machine.state.line_suffixes),
    ensures
        print_fill_line(options, machine, args) matches Ok(after) ==> is_behind_entry(
            machine,
            after,
            rest,
            open,
        ),
    decreases
        machine.remaining().suffixes,
        machine.remaining().pending,
        machine.remaining().size,
        7nat,
{
    if let Ok((pairs, layout, group_modes)) = fill_layout(options, machine) {
        let start = machine.with_group_modes(group_modes).with_measured(true);
        let flat = args.in_mode(PrintMode::Flat);
        lemma_flat_pairs_inside(options, start, elements, rest, open, flat, pairs);
        if let Ok(after) = not_behind(
            start.remaining(),
            print_flat_pairs(options, start, flat, pairs),
        ) {
            let next = choose|next: Seq<FormatElement>|
                after.queue == next + rest && #[trigger] closes(next, open);
            lemma_last_pair_inside(options, after, next, rest, open, args, layout);
        }
    }
}

proof fn lemma_flat_pairs_inside(
    options: PrinterOptions,
    machine: Machine,
    elements: Seq<FormatElement>,
    rest: Seq<FormatElement>,
    open: Seq<TagKind>,
    args: PrintElementArgs,
    count: nat,
)
    requires
        machine.queue == elements + rest,
        closes(elements, open),
        open.len() > 0,
        pending_closes(machine.state.line_suffixes),
    ensures
        print_flat_pairs(options, machine, args, count) matches Ok(after) ==> is_behind_entry(
            machine,
            after,
            rest,
            open,
        ),
    decreases
        machine.remaining().suffixes,
        machine.remaining().pending,
        machine.remaining().size,
        5nat,
{
    if count > 0 {
        lemma_next_entry_inside(options, machine, elements, rest, open, args);
        if let Ok(item) = advanced(machine.remaining(), print_entry(options, machine, args)) {
            let next = choose|next: Seq<FormatElement>|
                item.queue == next + rest && #[trigger] closes(next, open);
            lemma_next_entry_inside(options, item, next, rest, open, args);
            if let Ok(separator) = advanced(item.remaining(), print_entry(options, item, args)) {
                let behind = choose|next: Seq<FormatElement>|
                    separator.queue == next + rest && #[trigger] closes(next, open);
                lemma_flat_pairs_inside(
                    options,
                    separator,
                    behind,
                    rest,
                    open,
                    args,
                    (count - 1) as nat,
                );
            }
        }
    }
}

proof fn lemma_last_pair_inside(
    options: PrinterOptions,
    machine: Machine,
    elements: Seq<FormatElement>,
    rest: Seq<FormatElement>,
    open: Seq<TagKind>,
    args: PrintElementArgs,
    layout: FillPairLayout,
)
    requires
        machine.queue == elements + rest,
        closes(elements, open),
        open.len() > 0,
        pending_closes(machine.state.line_suffixes),
    ensures
        print_last_pair(options, machine, args, layout) matches Ok(after) ==> is_behind_entry(
            machine,
            after,
            rest,
            open,
        ),
    decreases
        machine.remaining().suffixes,
        machine.remaining().pending,
        machine.remaining().size,
        6nat,
{
    if let Ok((mode, group_modes)) = item_mode(options, machine, layout) {
        let measured = machine.with_group_modes(group_modes);
        lemma_next_entry_inside(options, measured, elements, rest, open, args.in_mode(mode));
        if let Ok(item) = advanced(
            machine.remaining(),
            print_entry(options, measured, args.in_mode(mode)),
        ) {
            let next = choose|next: Seq<FormatElement>|
                item.queue == next + rest && #[trigger] closes(next, open);
            let start = item.entering(TagKind::Fill, args.in_mode(PrintMode::Flat));
            let mode = args.in_mode(separator_mode(layout));
            assert(start.remaining() == item.remaining());
            lemma_next_entry_inside(options, start, next, rest, open, mode);
            if let Ok(separator) = print_entry(options, start, mode) {
                if let Ok(after) = separator.leaving(TagKind::Fill) {
                    assert(after.stack =~= item.stack);
                }
            }
        }
    }
}

} // verus!
