//! Documents that can be printed without an error.

use crate::format_element::{
    element_size, lemma_concat_counts, lemma_element_counts, lemma_first_counts,
    lemma_variant_counts, total_size, BestFittingElement, FormatElement,
};
use crate::printer::laws::nesting::{
    closes, count_of, is_entry, lemma_closes_apart, lemma_nests_closes, lemma_split_closes, nests,
    variants_close,
};
use crate::printer::queue::{lemma_pop_size, resolved, split_content};
use crate::tag::{GroupMode, Tag, TagKind};
use vstd::prelude::*;

verus! {

/// Whether printing the elements needs no measuring: there are no groups that may be flat, best
/// fitting elements and fills.
pub open spec fn is_quiet(elements: Seq<FormatElement>) -> bool
    decreases total_size(elements),
{
    if elements.len() == 0 {
        true
    } else {
        proof {
            lemma_pop_size(elements);
            lemma_first_counts(elements);
            lemma_element_counts(elements[0]);
        }
        &&& is_quiet(elements.drop_first())
        &&& match elements[0] {
            FormatElement::Interned(content) => is_quiet(content@),
            FormatElement::BestFitting(_) => false,
            FormatElement::Tag(Tag::StartFill) => false,
            FormatElement::Tag(Tag::StartGroup(group)) => group.mode != GroupMode::Flat,
            _ => true,
        }
    }
}

/// Whether the tag starts a group that may be flat.
pub open spec fn may_be_flat(tag: Tag) -> bool {
    match tag {
        Tag::StartGroup(group) => group.mode == GroupMode::Flat,
        _ => false,
    }
}

/// Whether a line break in the element may end measuring right behind the element.
pub open spec fn may_end_line(element: FormatElement) -> bool {
    element is Line || element is Interned || element is BestFitting
}

/// Whether the element starts with an entry.
pub open spec fn starts_entry(element: FormatElement) -> bool {
    resolved(element) == Some(FormatElement::Tag(Tag::StartEntry))
}

/// Whether measuring the elements is reliable: where a line break ends it early, no entry comes next
/// that could be taken for the one behind them. An item has no content either that depends on the
/// mode of another group, so that measuring it again takes the same way.
pub open spec fn is_reliable(elements: Seq<FormatElement>, is_item: bool) -> bool
    decreases total_size(elements) + 1, 0nat,
{
    if elements.len() == 0 {
        true
    } else {
        proof {
            lemma_pop_size(elements);
            lemma_first_counts(elements);
            lemma_element_counts(elements[0]);
        }
        &&& is_reliable(elements.drop_first(), is_item)
        &&& elements.len() > 1 && may_end_line(elements[0]) ==> !starts_entry(elements[1])
        &&& match elements[0] {
            FormatElement::Interned(content) => is_reliable(content@, is_item),
            FormatElement::BestFitting(best_fitting) => variants_are_reliable(
                best_fitting,
                best_fitting.layouts().len(),
                is_item,
            ),
            FormatElement::Tag(Tag::StartConditionalContent(condition)) => is_item
                ==> condition.group_id is None,
            _ => true,
        }
    }
}

/// Whether each of the first variants is measured reliably.
pub open spec fn variants_are_reliable(
    best_fitting: BestFittingElement,
    count: nat,
    is_item: bool,
) -> bool
    decreases element_size(FormatElement::BestFitting(best_fitting)), count,
{
    if count == 0 || count > best_fitting.layouts().len() {
        count == 0
    } else {
        proof {
            lemma_variant_counts(best_fitting, count - 1);
        }
        &&& is_reliable(best_fitting.layouts()[count - 1]@, is_item)
        &&& variants_are_reliable(best_fitting, (count - 1) as nat, is_item)
    }
}

/// Whether the elements, inside of nested parts of the given kinds, the innermost last, make up a
/// document: they end these parts and whatever starts inside of them or behind them, shared content
/// and variants are complete in themselves, every variant is a single entry, fills hold items and
/// separators, and line suffixes need no measuring.
pub open spec fn lays_out(elements: Seq<FormatElement>, open: Seq<TagKind>) -> bool
    decreases total_size(elements) + 1, 0nat,
{
    if elements.len() == 0 {
        open.len() == 0
    } else {
        let rest = elements.drop_first();
        let in_suffix = open.contains(TagKind::LineSuffix);
        proof {
            lemma_pop_size(elements);
            lemma_first_counts(elements);
            lemma_element_counts(elements[0]);
        }
        match elements[0] {
            FormatElement::Interned(content) => {
                &&& lays_out(content@, Seq::empty())
                &&& in_suffix ==> is_quiet(content@)
                &&& lays_out(rest, open)
            },
            FormatElement::BestFitting(best_fitting) => {
                &&& !in_suffix
                &&& variants_close(best_fitting, best_fitting.layouts().len())
                &&& variants_lay_out(best_fitting, best_fitting.layouts().len())
                &&& lays_out(rest, open)
            },
            FormatElement::Tag(tag) => if tag.starts() {
                &&& may_be_flat(tag) ==> !in_suffix
                &&& tag == Tag::StartFill ==> !in_suffix && fill_follows(rest, true)
                &&& lays_out(rest, open.push(tag.marks()))
            } else {
                open.len() > 0 && open.last() == tag.marks() && lays_out(rest, open.drop_last())
            },
            _ => lays_out(rest, open),
        }
    }
}

/// Whether the first elements, so many of them, are an entry.
pub open spec fn entry_ends_at(elements: Seq<FormatElement>, length: int) -> bool {
    0 < length <= elements.len() && is_entry(elements.take(length))
}

/// How many elements the entry that the elements start with consists of.
pub open spec fn entry_length(elements: Seq<FormatElement>) -> int {
    choose|length: int| entry_ends_at(elements, length)
}

/// Whether the elements are what is left of a fill, with anything behind: items and separators in
/// turn, and then the end of the fill. Each of them is an entry and a document in itself, and
/// measuring it is reliable. Printing a separator needs no measuring.
pub open spec fn fill_follows(elements: Seq<FormatElement>, is_item: bool) -> bool
    decreases total_size(elements) + 1, 1nat,
{
    let length = entry_length(elements);
    let entry = elements.take(length);
    let rest = elements.skip(length);
    if elements.len() > 0 && elements[0] == FormatElement::Tag(Tag::EndFill) {
        true
    } else if entry_ends_at(elements, length) {
        proof {
            lemma_entry_counts(elements, length);
        }
        &&& lays_out(entry, Seq::empty())
        &&& is_reliable(entry, is_item)
        &&& !is_item ==> is_quiet(entry)
        &&& fill_follows(rest, !is_item)
    } else {
        false
    }
}

/// Whether each of the first variants makes up a document.
pub open spec fn variants_lay_out(best_fitting: BestFittingElement, count: nat) -> bool
    decreases element_size(FormatElement::BestFitting(best_fitting)), count,
{
    if count == 0 || count > best_fitting.layouts().len() {
        count == 0
    } else {
        proof {
            lemma_variant_counts(best_fitting, count - 1);
        }
        let variant = best_fitting.layouts()[count - 1]@;
        &&& variant.len() > 0
        &&& variant[0] == FormatElement::Tag(Tag::StartEntry)
        &&& lays_out(variant, Seq::empty())
        &&& variants_lay_out(best_fitting, (count - 1) as nat)
    }
}

/// An entry is no larger than the elements that start with it, and what comes behind it is smaller.
pub proof fn lemma_entry_counts(elements: Seq<FormatElement>, length: int)
    requires
        entry_ends_at(elements, length),
    ensures
        total_size(elements.take(length)) <= total_size(elements),
        total_size(elements.skip(length)) < total_size(elements),
{
    let entry = elements.take(length);
    let rest = elements.skip(length);
    assert(entry + rest =~= elements);
    lemma_concat_counts(entry, rest);
    lemma_pop_size(entry);
}

/// Nested parts end at one place only.
proof fn lemma_closes_once(
    elements: Seq<FormatElement>,
    left: int,
    right: int,
    open: Seq<TagKind>,
)
    requires
        0 <= left <= elements.len(),
        0 <= right <= elements.len(),
        closes(elements.take(left), open),
        closes(elements.take(right), open),
    ensures
        left == right,
    decreases elements.len(),
{
    if open.len() > 0 {
        let rest = elements.drop_first();
        assert(elements.take(left)[0] == elements[0]);
        assert(elements.take(right)[0] == elements[0]);
        assert(elements.take(left).drop_first() =~= rest.take(left - 1));
        assert(elements.take(right).drop_first() =~= rest.take(right - 1));
        match elements[0] {
            FormatElement::Tag(tag) => {
                if tag.starts() {
                    lemma_closes_once(rest, left - 1, right - 1, open.push(tag.marks()));
                } else {
                    lemma_closes_once(rest, left - 1, right - 1, open.drop_last());
                }
            },
            _ => {
                lemma_closes_once(rest, left - 1, right - 1, open);
            },
        }
    }
}

/// There is only one entry that elements start with.
pub proof fn lemma_entry_length(elements: Seq<FormatElement>, length: int)
    requires
        entry_ends_at(elements, length),
    ensures
        entry_length(elements) == length,
{
    let chosen = entry_length(elements);
    let rest = elements.drop_first();
    assert(elements.take(length).drop_first() =~= rest.take(length - 1));
    assert(elements.take(chosen).drop_first() =~= rest.take(chosen - 1));
    lemma_closes_once(rest, length - 1, chosen - 1, seq![TagKind::Entry]);
}

/// What is left of a fill stays so with more elements behind it.
proof fn lemma_fill_concat(
    elements: Seq<FormatElement>,
    behind: Seq<FormatElement>,
    is_item: bool,
)
    requires
        fill_follows(elements, is_item),
    ensures
        fill_follows(elements + behind, is_item),
    decreases total_size(elements),
{
    let all = elements + behind;
    let length = entry_length(elements);
    if elements.len() > 0 && elements[0] == FormatElement::Tag(Tag::EndFill) {
        assert(all[0] == elements[0]);
    } else {
        assert(all.take(length) =~= elements.take(length));
        assert(entry_ends_at(all, length));
        lemma_entry_length(all, length);
        lemma_entry_counts(elements, length);
        assert(all.skip(length) =~= elements.skip(length) + behind);
        assert(all[0] == all.take(length)[0]);
        lemma_fill_concat(elements.skip(length), behind, !is_item);
    }
}

/// What comes behind reliable elements is reliable.
proof fn lemma_reliable_skip(elements: Seq<FormatElement>, count: int, is_item: bool)
    requires
        is_reliable(elements, is_item),
        0 <= count <= elements.len(),
    ensures
        is_reliable(elements.skip(count), is_item),
    decreases count,
{
    if count == 0 {
        assert(elements.skip(0) =~= elements);
    } else {
        assert(elements.skip(count) =~= elements.drop_first().skip(count - 1));
        lemma_reliable_skip(elements.drop_first(), count - 1, is_item);
    }
}

/// Reliable elements and reliable elements behind them are reliable, unless the line may end right
/// before an entry.
proof fn lemma_reliable_concat(
    left: Seq<FormatElement>,
    right: Seq<FormatElement>,
    is_item: bool,
)
    requires
        is_reliable(left, is_item),
        is_reliable(right, is_item),
        right.len() > 0 ==> !starts_entry(right[0]),
    ensures
        is_reliable(left + right, is_item),
    decreases left.len(),
{
    let all = left + right;
    if left.len() == 0 {
        assert(all =~= right);
    } else {
        assert(all[0] == left[0]);
        assert(all.drop_first() =~= left.drop_first() + right);
        lemma_reliable_concat(left.drop_first(), right, is_item);
        if left.len() > 1 {
            assert(all[1] == left[1]);
        } else if right.len() > 0 {
            assert(all[1] == right[0]);
        }
    }
}

/// Shared content and the elements behind it are reliable together.
pub proof fn lemma_reliable_content(
    elements: Seq<FormatElement>,
    content: Seq<FormatElement>,
    is_item: bool,
)
    requires
        is_reliable(elements, is_item),
        elements.len() > 0,
        may_end_line(elements[0]),
        is_reliable(content, is_item),
    ensures
        is_reliable(content + elements.drop_first(), is_item),
{
    lemma_reliable_concat(content, elements.drop_first(), is_item);
}

/// Every variant of a reliable best fitting element is reliable.
pub proof fn lemma_variant_is_reliable(
    best_fitting: BestFittingElement,
    count: nat,
    index: int,
    is_item: bool,
)
    requires
        variants_are_reliable(best_fitting, count, is_item),
        0 <= index < count,
    ensures
        index < best_fitting.layouts().len(),
        is_reliable(best_fitting.layouts()[index]@, is_item),
    decreases count,
{
    if index < count - 1 {
        lemma_variant_is_reliable(best_fitting, (count - 1) as nat, index, is_item);
    }
}

/// What comes behind an entry makes up the parts around it.
pub proof fn lemma_layout_behind_entry(
    elements: Seq<FormatElement>,
    length: int,
    open: Seq<TagKind>,
)
    requires
        lays_out(elements, open),
        entry_ends_at(elements, length),
    ensures
        lays_out(elements.skip(length), open),
{
    let rest = elements.drop_first();
    assert(elements[0] == elements.take(length)[0]);
    assert(open.push(TagKind::Entry) =~= open + seq![TagKind::Entry]);
    let end = lemma_layout_apart(rest, open, seq![TagKind::Entry]);
    assert(elements.take(length).drop_first() =~= rest.take(length - 1));
    lemma_closes_once(rest, end, length - 1, seq![TagKind::Entry]);
    assert(elements.skip(length) =~= rest.skip(end));
}

/// Every variant of a best fitting element of a document makes up a document.
pub proof fn lemma_variant_lays_out(best_fitting: BestFittingElement, count: nat, index: int)
    requires
        variants_lay_out(best_fitting, count),
        0 <= index < count,
    ensures
        index < best_fitting.layouts().len(),
        best_fitting.layouts()[index]@.len() > 0,
        best_fitting.layouts()[index]@[0] == FormatElement::Tag(Tag::StartEntry),
        lays_out(best_fitting.layouts()[index]@, Seq::empty()),
    decreases count,
{
    if index < count - 1 {
        lemma_variant_lays_out(best_fitting, (count - 1) as nat, index);
    }
}

/// What makes up a document nests.
pub proof fn lemma_layout_nests(elements: Seq<FormatElement>, open: Seq<TagKind>)
    requires
        lays_out(elements, open),
    ensures
        nests(elements, open),
    decreases total_size(elements),
{
    if elements.len() > 0 {
        let rest = elements.drop_first();
        lemma_pop_size(elements);
        lemma_first_counts(elements);
        lemma_element_counts(elements[0]);
        match elements[0] {
            FormatElement::Interned(content) => {
                lemma_layout_nests(content@, Seq::empty());
                lemma_layout_nests(rest, open);
            },
            FormatElement::Tag(tag) => {
                if tag.starts() {
                    lemma_layout_nests(rest, open.push(tag.marks()));
                } else {
                    lemma_layout_nests(rest, open.drop_last());
                }
            },
            _ => {
                lemma_layout_nests(rest, open);
            },
        }
    }
}

/// Whether there is a line suffix among the parts.
proof fn lemma_suffix_among(lower: Seq<TagKind>, upper: Seq<TagKind>)
    ensures
        (lower + upper).contains(TagKind::LineSuffix) == (lower.contains(TagKind::LineSuffix)
            || upper.contains(TagKind::LineSuffix)),
{
    let all = lower + upper;
    if lower.contains(TagKind::LineSuffix) {
        let i = choose|i: int| 0 <= i < lower.len() && lower[i] == TagKind::LineSuffix;
        assert(all[i] == TagKind::LineSuffix);
    }
    if upper.contains(TagKind::LineSuffix) {
        let i = choose|i: int| 0 <= i < upper.len() && upper[i] == TagKind::LineSuffix;
        assert(all[lower.len() + i] == TagKind::LineSuffix);
    }
    if all.contains(TagKind::LineSuffix) {
        let i = choose|i: int| 0 <= i < all.len() && all[i] == TagKind::LineSuffix;
        if i < lower.len() {
            assert(lower[i] == TagKind::LineSuffix);
        } else {
            assert(upper[i - lower.len()] == TagKind::LineSuffix);
        }
    }
}

/// What makes up inner parts, and behind it what makes up outer parts, makes up all of them.
pub proof fn lemma_layout_concat(
    inner: Seq<FormatElement>,
    outer: Seq<FormatElement>,
    inner_open: Seq<TagKind>,
    outer_open: Seq<TagKind>,
)
    requires
        lays_out(inner, inner_open),
        lays_out(outer, outer_open),
        outer_open.contains(TagKind::LineSuffix) ==> is_quiet(inner),
    ensures
        lays_out(inner + outer, outer_open + inner_open),
    decreases inner.len(),
{
    let open = outer_open + inner_open;
    lemma_suffix_among(outer_open, inner_open);
    if inner.len() == 0 {
        assert(inner + outer =~= outer);
        assert(open =~= outer_open);
    } else {
        let rest = inner.drop_first();
        assert((inner + outer)[0] == inner[0]);
        assert((inner + outer).drop_first() =~= rest + outer);
        match inner[0] {
            FormatElement::Tag(tag) => {
                if tag.starts() {
                    assert(open.push(tag.marks()) =~= outer_open + inner_open.push(tag.marks()));
                    if tag == Tag::StartFill {
                        lemma_fill_concat(rest, outer, true);
                    }
                    lemma_layout_concat(rest, outer, inner_open.push(tag.marks()), outer_open);
                } else {
                    assert(open.last() == inner_open.last());
                    assert(open.drop_last() =~= outer_open + inner_open.drop_last());
                    lemma_layout_concat(rest, outer, inner_open.drop_last(), outer_open);
                }
            },
            _ => {
                lemma_layout_concat(rest, outer, inner_open, outer_open);
            },
        }
    }
}

/// What makes up nested parts ends the inner ones first.
proof fn lemma_layout_apart(
    elements: Seq<FormatElement>,
    lower: Seq<TagKind>,
    upper: Seq<TagKind>,
) -> (length: int)
    requires
        lays_out(elements, lower + upper),
    ensures
        0 <= length <= elements.len(),
        closes(elements.take(length), upper),
        lays_out(elements.skip(length), lower),
        upper.len() > 0 && upper[0] == TagKind::LineSuffix ==> is_quiet(elements.take(length)),
    decreases elements.len(),
{
    let open = lower + upper;
    if upper.len() == 0 {
        assert(elements.skip(0) =~= elements);
        assert(open =~= lower);
        0
    } else {
        let rest = elements.drop_first();
        assert(open.last() == upper.last());
        if upper[0] == TagKind::LineSuffix {
            assert(upper.contains(upper[0]));
            lemma_suffix_among(lower, upper);
        }
        let length = match elements[0] {
            FormatElement::Interned(content) => {
                lemma_layout_nests(content@, Seq::empty());
                lemma_layout_apart(rest, lower, upper)
            },
            FormatElement::Tag(tag) => if tag.starts() {
                assert(open.push(tag.marks()) =~= lower + upper.push(tag.marks()));
                lemma_layout_apart(rest, lower, upper.push(tag.marks()))
            } else {
                assert(open.drop_last() =~= lower + upper.drop_last());
                lemma_layout_apart(rest, lower, upper.drop_last())
            },
            _ => lemma_layout_apart(rest, lower, upper),
        };
        let taken = elements.take(length + 1);
        assert(taken[0] == elements[0]);
        assert(taken.drop_first() =~= rest.take(length));
        assert(elements.skip(length + 1) =~= rest.skip(length));
        if upper[0] == TagKind::LineSuffix {
            if let FormatElement::Tag(tag) = elements[0] {
                if tag.starts() {
                    assert(upper.push(tag.marks())[0] == TagKind::LineSuffix);
                } else if upper.len() == 1 {
                    assert(closes(rest.take(length), upper.drop_last()));
                    assert(rest.take(length).len() == 0);
                } else {
                    assert(upper.drop_last()[0] == TagKind::LineSuffix);
                }
            }
            assert(is_quiet(rest.take(length)));
            assert(is_quiet(taken));
        }
        length + 1
    }
}

/// Content that is taken out leaves what makes up the parts around it.
pub proof fn lemma_layout_split(
    elements: Seq<FormatElement>,
    behind: Seq<FormatElement>,
    lower: Seq<TagKind>,
    kind: TagKind,
) -> (length: int)
    requires
        lays_out(elements, lower.push(kind)),
    ensures
        0 <= length <= elements.len(),
        lays_out(elements.skip(length), lower),
        closes(elements, lower.push(kind)) ==> closes(elements.skip(length), lower),
        is_quiet(elements) ==> is_quiet(elements.skip(length)),
        is_reliable(elements, true) ==> is_reliable(elements.skip(length), true),
        is_reliable(elements, false) ==> is_reliable(elements.skip(length), false),
        split_content(elements + behind, kind, 1) matches Some((content, left)) ==> {
            &&& left == elements.skip(length) + behind
            &&& kind == TagKind::LineSuffix ==> {
                let suffix = content.push(FormatElement::Tag(Tag::EndLineSuffix));
                &&& is_quiet(content)
                &&& lays_out(suffix, seq![TagKind::LineSuffix])
                &&& closes(suffix, seq![TagKind::LineSuffix])
            }
        },
{
    assert(lower.push(kind) =~= lower + seq![kind]);
    let length = lemma_layout_apart(elements, lower, seq![kind]);
    let part = elements.take(length);
    let rest = elements.skip(length);
    let all = rest + behind;
    assert(part + rest =~= elements);
    assert(part + all =~= elements + behind);
    if closes(elements, lower.push(kind)) {
        let end = lemma_closes_apart(elements, lower, seq![kind]);
        lemma_closes_once(elements, length, end, seq![kind]);
    }
    lemma_quiet_concat(part, rest);
    if is_reliable(elements, true) {
        lemma_reliable_skip(elements, length, true);
    }
    if is_reliable(elements, false) {
        lemma_reliable_skip(elements, length, false);
    }
    let none: Seq<TagKind> = Seq::empty();
    assert(none.push(kind) + none =~= seq![kind]);
    lemma_split_closes(part, all, none, kind, none);
    if let Some((content, left)) = split_content(elements + behind, kind, 1) {
        let (over, end) = choose|over: Seq<FormatElement>, end: Tag|
            {
                &&& left == over + all
                &&& #[trigger] closes(over, none)
                &&& !end.starts() && end.marks() == kind
                &&& #[trigger] closes(content.push(FormatElement::Tag(end)), seq![kind] + none)
            };
        assert(left =~= all);
        if kind == TagKind::LineSuffix {
            assert(end == Tag::EndLineSuffix);
            assert(seq![kind] + none =~= seq![kind]);
            lemma_quiet_split(part, all, kind, 1, none);
            lemma_quiet_closes_lays_out(
                content.push(FormatElement::Tag(Tag::EndLineSuffix)),
                seq![kind],
            );
        }
    }
    length
}

/// Quiet content that ends parts makes up these parts.
proof fn lemma_quiet_closes_lays_out(elements: Seq<FormatElement>, open: Seq<TagKind>)
    requires
        closes(elements, open),
        is_quiet(elements),
    ensures
        lays_out(elements, open),
    decreases total_size(elements),
{
    if elements.len() > 0 {
        let rest = elements.drop_first();
        lemma_pop_size(elements);
        lemma_first_counts(elements);
        lemma_element_counts(elements[0]);
        match elements[0] {
            FormatElement::Interned(content) => {
                lemma_quiet_nests_lays_out(content@, Seq::empty());
                lemma_quiet_closes_lays_out(rest, open);
            },
            FormatElement::Tag(tag) => {
                if tag.starts() {
                    lemma_quiet_closes_lays_out(rest, open.push(tag.marks()));
                } else {
                    lemma_quiet_closes_lays_out(rest, open.drop_last());
                }
            },
            _ => {
                lemma_quiet_closes_lays_out(rest, open);
            },
        }
    }
}

proof fn lemma_quiet_nests_lays_out(elements: Seq<FormatElement>, open: Seq<TagKind>)
    requires
        nests(elements, open),
        is_quiet(elements),
    ensures
        lays_out(elements, open),
    decreases total_size(elements),
{
    if elements.len() > 0 {
        let rest = elements.drop_first();
        lemma_pop_size(elements);
        lemma_first_counts(elements);
        lemma_element_counts(elements[0]);
        match elements[0] {
            FormatElement::Interned(content) => {
                lemma_quiet_nests_lays_out(content@, Seq::empty());
                lemma_quiet_nests_lays_out(rest, open);
            },
            FormatElement::Tag(tag) => {
                if tag.starts() {
                    lemma_quiet_nests_lays_out(rest, open.push(tag.marks()));
                } else {
                    lemma_quiet_nests_lays_out(rest, open.drop_last());
                }
            },
            _ => {
                lemma_quiet_nests_lays_out(rest, open);
            },
        }
    }
}

/// Two quiet parts are quiet together.
pub proof fn lemma_quiet_concat(left: Seq<FormatElement>, right: Seq<FormatElement>)
    ensures
        is_quiet(left + right) == (is_quiet(left) && is_quiet(right)),
    decreases left.len(),
{
    if left.len() == 0 {
        assert(left + right =~= right);
    } else {
        assert((left + right)[0] == left[0]);
        assert((left + right).drop_first() =~= left.drop_first() + right);
        lemma_quiet_concat(left.drop_first(), right);
    }
}

/// The content of a quiet part is quiet.
proof fn lemma_quiet_split(
    elements: Seq<FormatElement>,
    rest: Seq<FormatElement>,
    kind: TagKind,
    depth: nat,
    upper: Seq<TagKind>,
)
    requires
        is_quiet(elements),
        closes(elements, seq![kind] + upper),
        depth == 1 + count_of(upper, kind),
    ensures
        split_content(elements + rest, kind, depth) matches Some((content, left)) ==> {
            &&& is_quiet(content)
            &&& is_quiet(content.push(FormatElement::Tag(Tag::EndLineSuffix)))
        },
    decreases total_size(elements),
{
    let open = seq![kind] + upper;
    let all = elements + rest;
    let others = elements.drop_first();
    lemma_pop_size(elements);
    assert(all[0] == elements[0]);
    assert(all.drop_first() =~= others + rest);
    let end = FormatElement::Tag(Tag::EndLineSuffix);
    if let Some((content, left)) = split_content(all, kind, depth) {
        match elements[0] {
            FormatElement::Interned(interned) => {
                lemma_nests_closes(
                    interned@,
                    others,
                    Seq::empty(),
                    open,
                );
                assert(open + Seq::<TagKind>::empty() =~= open);
                lemma_quiet_concat(interned@, others);
                assert(interned@ + (others + rest) =~= (interned@ + others) + rest);
                lemma_quiet_split(interned@ + others, rest, kind, depth, upper);
            },
            FormatElement::Tag(tag) => {
                if tag.starts() {
                    let next = upper.push(tag.marks());
                    assert(next.drop_last() =~= upper);
                    assert(open.push(tag.marks()) =~= seq![kind] + next);
                    lemma_quiet_split(others, rest, kind, 1 + count_of(next, kind), next);
                    let (inside, _) = split_content(
                        others + rest,
                        kind,
                        1 + count_of(next, kind),
                    )->Some_0;
                    lemma_quiet_with_first(elements, inside, content);
                } else if upper.len() == 0 {
                    assert(content =~= Seq::empty());
                    assert(content.push(end).drop_first() =~= Seq::empty());
                } else {
                    let next = upper.drop_last();
                    assert(open.last() == upper.last());
                    assert(open.drop_last() =~= seq![kind] + next);
                    lemma_quiet_split(others, rest, kind, 1 + count_of(next, kind), next);
                    let (inside, _) = split_content(
                        others + rest,
                        kind,
                        1 + count_of(next, kind),
                    )->Some_0;
                    lemma_quiet_with_first(elements, inside, content);
                }
            },
            _ => {
                lemma_quiet_split(others, rest, kind, depth, upper);
                let (inside, _) = split_content(others + rest, kind, depth)->Some_0;
                lemma_quiet_with_first(elements, inside, content);
            },
        }
    }
}

proof fn lemma_quiet_with_first(
    elements: Seq<FormatElement>,
    inside: Seq<FormatElement>,
    content: Seq<FormatElement>,
)
    requires
        elements.len() > 0,
        is_quiet(elements),
        is_quiet(inside),
        content == seq![elements[0]] + inside,
    ensures
        is_quiet(content),
        is_quiet(content.push(FormatElement::Tag(Tag::EndLineSuffix))),
{
    let first = seq![elements[0]];
    let end = seq![FormatElement::Tag(Tag::EndLineSuffix)];
    assert(elements =~= first + elements.drop_first());
    lemma_quiet_concat(first, elements.drop_first());
    lemma_quiet_concat(first, inside);
    assert(end.drop_first() =~= Seq::empty());
    assert(is_quiet(end.drop_first()));
    assert(content.push(FormatElement::Tag(Tag::EndLineSuffix)) =~= content + end);
    lemma_quiet_concat(content, end);
}

} // verus!
