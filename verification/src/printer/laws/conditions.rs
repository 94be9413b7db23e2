//! When conditional content is printed, and what is skipped or put aside otherwise.

use crate::format_element::{total_size, FormatElement};
use crate::options::PrinterOptions;
use crate::printer::call_stack::{PrintElementArgs, StackFrame, StackFrameKind};
use crate::printer::fits::{fits_element, Fits, FitsView};
use crate::printer::laws::nesting::{closes, count_of, lemma_nests_closes, lemma_split_closes};
use crate::printer::machine::Machine;
use crate::printer::outcome::print_element;
use crate::printer::queue::{lemma_pop_size, split_content};
use crate::printer::state::{StateView, Stop};
use crate::tag::{Condition, GroupId, PrintMode, Tag, TagKind};
use vstd::prelude::*;

verus! {

/// The machine inside of another part, in the same mode.
pub open spec fn inside_of(machine: Machine, kind: TagKind) -> Machine {
    Machine {
        stack: machine.stack.push(
            StackFrame {
                kind: StackFrameKind::Tag(kind),
                args: PrintElementArgs { mode: machine.stack.last().args.mode },
            },
        ),
        ..machine
    }
}

/// The view inside of another part, in the same mode.
pub open spec fn measuring_inside_of(view: FitsView, kind: TagKind) -> FitsView {
    FitsView {
        stack: view.stack.push(
            StackFrame {
                kind: StackFrameKind::Tag(kind),
                args: PrintElementArgs { mode: view.stack.last().args.mode },
            },
        ),
        ..view
    }
}

/// Content that ends is found, unless it nests deeper than can be counted.
proof fn lemma_content_found(
    part: Seq<FormatElement>,
    rest: Seq<FormatElement>,
    kind: TagKind,
    upper: Seq<TagKind>,
)
    requires
        closes(part, seq![kind] + upper),
        1 + count_of(upper, kind) + total_size(part) <= usize::MAX,
    ensures
        split_content(part + rest, kind, 1 + count_of(upper, kind)) is Some,
    decreases total_size(part),
{
    let open = seq![kind] + upper;
    let all = part + rest;
    let others = part.drop_first();
    let depth = 1 + count_of(upper, kind);
    lemma_pop_size(part);
    assert(all[0] == part[0]);
    assert(all.drop_first() =~= others + rest);
    match part[0] {
        FormatElement::Interned(content) => {
            let none: Seq<TagKind> = Seq::empty();
            lemma_nests_closes(content@, others, none, open);
            assert(open + none =~= open);
            assert(content@ + (others + rest) =~= (content@ + others) + rest);
            lemma_content_found(content@ + others, rest, kind, upper);
        },
        FormatElement::Tag(tag) => {
            if tag.starts() {
                let above = upper.push(tag.marks());
                assert(above.drop_last() =~= upper);
                assert(open.push(tag.marks()) =~= seq![kind] + above);
                lemma_content_found(others, rest, kind, above);
            } else if upper.len() > 0 {
                let above = upper.drop_last();
                assert(open.last() == upper.last());
                assert(open.drop_last() =~= seq![kind] + above);
                lemma_content_found(others, rest, kind, above);
            } else {
                assert(open.last() == kind);
            }
        },
        _ => {
            lemma_content_found(others, rest, kind, upper);
        },
    }
}

/// What is left behind content that is skipped is what comes behind its end.
proof fn lemma_left_behind_content(
    part: Seq<FormatElement>,
    rest: Seq<FormatElement>,
    kind: TagKind,
)
    requires
        closes(part, seq![kind]),
        total_size(part) < usize::MAX,
    ensures
        split_content(part + rest, kind, 1) matches Some((content, left)) && left == rest,
{
    let none: Seq<TagKind> = Seq::empty();
    assert(seq![kind] + none =~= seq![kind]);
    assert(none.push(kind) + none =~= seq![kind]);
    lemma_content_found(part, rest, kind, none);
    lemma_split_closes(part, rest, none, kind, none);
    if let Some((content, left)) = split_content(part + rest, kind, 1) {
        let (over, end) = choose|over: Seq<FormatElement>, end: Tag|
            {
                &&& left == over + rest
                &&& #[trigger] closes(over, none)
                &&& !end.starts() && end.marks() == kind
                &&& #[trigger] closes(content.push(FormatElement::Tag(end)), seq![kind] + none)
            };
        assert(left =~= rest);
    }
}

/// Content without shared parts is taken out as it is, in its order, without its end.
pub proof fn lemma_content_as_it_is(
    part: Seq<FormatElement>,
    rest: Seq<FormatElement>,
    kind: TagKind,
    upper: Seq<TagKind>,
)
    requires
        closes(part, seq![kind] + upper),
        forall|i: int| 0 <= i < part.len() ==> !(#[trigger] part[i] is Interned),
        1 + count_of(upper, kind) + total_size(part) <= usize::MAX,
    ensures
        split_content(part + rest, kind, 1 + count_of(upper, kind)) == Some(
            (part.drop_last(), rest),
        ),
    decreases part.len(),
{
    let open = seq![kind] + upper;
    let all = part + rest;
    let others = part.drop_first();
    let depth = 1 + count_of(upper, kind);
    lemma_pop_size(part);
    assert(all[0] == part[0]);
    assert(!(part[0] is Interned));
    assert(all.drop_first() =~= others + rest);
    assert forall|i: int| 0 <= i < others.len() implies !(#[trigger] others[i] is Interned) by {
        assert(!(part[i + 1] is Interned));
    }
    match part[0] {
        FormatElement::Tag(tag) => {
            if tag.starts() {
                let above = upper.push(tag.marks());
                assert(above.drop_last() =~= upper);
                assert(open.push(tag.marks()) =~= seq![kind] + above);
                lemma_content_as_it_is(others, rest, kind, above);
                lemma_not_over(others, seq![kind] + above);
                lemma_front_and_back(part);
            } else if upper.len() > 0 {
                let above = upper.drop_last();
                assert(open.last() == upper.last());
                assert(open.drop_last() =~= seq![kind] + above);
                lemma_content_as_it_is(others, rest, kind, above);
                lemma_not_over(others, seq![kind] + above);
                lemma_front_and_back(part);
            } else {
                assert(open.last() == kind);
                assert(open.drop_last() =~= Seq::empty());
                assert(closes(others, open.drop_last()));
                assert(others.len() == 0);
                assert(part.drop_last() =~= Seq::empty());
                assert(others + rest =~= rest);
            }
        },
        _ => {
            lemma_content_as_it_is(others, rest, kind, upper);
            lemma_not_over(others, open);
            lemma_front_and_back(part);
        },
    }
}

proof fn lemma_not_over(part: Seq<FormatElement>, open: Seq<TagKind>)
    requires
        closes(part, open),
        open.len() > 0,
    ensures
        part.len() > 0,
{
}

proof fn lemma_front_and_back(part: Seq<FormatElement>)
    ensures
        part.len() > 1 ==> seq![part[0]] + part.drop_first().drop_last() == part.drop_last(),
{
    if part.len() > 1 {
        assert(seq![part[0]] + part.drop_first().drop_last() =~= part.drop_last());
    }
}

/// Shared content is taken out with its parts in its place.
pub proof fn lemma_shared_content_taken_out(
    element: FormatElement,
    content: Seq<FormatElement>,
    rest: Seq<FormatElement>,
    kind: TagKind,
    depth: nat,
)
    requires
        element matches FormatElement::Interned(shared) && shared@ == content,
    ensures
        split_content(seq![element] + rest, kind, depth) == split_content(
            content + rest,
            kind,
            depth,
        ),
{
    assert((seq![element] + rest).drop_first() =~= rest);
}

/// The mode that decides about conditional content: that of the innermost part or, if the condition
/// names a group, the one that this group was printed in.
pub open spec fn decides(
    stack: Seq<StackFrame>,
    group_modes: Map<GroupId, PrintMode>,
    group_id: Option<GroupId>,
    mode: PrintMode,
) -> bool {
    match group_id {
        None => mode == stack.last().args.mode,
        Some(id) => group_modes.contains_key(id) && mode == group_modes[id],
    }
}

/// Conditional content is printed if its mode is the one that decides: its start takes nothing from
/// the queue. Otherwise exactly the content and its end are taken from the queue, and nothing else
/// changes.
pub proof fn lemma_conditional_content(
    options: PrinterOptions,
    machine: Machine,
    condition: Condition,
    mode: PrintMode,
    part: Seq<FormatElement>,
    rest: Seq<FormatElement>,
)
    requires
        decides(machine.stack, machine.state.group_modes, condition.group_id, mode),
        machine.queue == part + rest,
        closes(part, seq![TagKind::ConditionalContent]),
        total_size(part) < usize::MAX,
    ensures
        print_element(
            options,
            machine,
            FormatElement::Tag(Tag::StartConditionalContent(condition)),
        ) == Ok::<Machine, Stop<Machine>>(
            if condition.mode == mode {
                inside_of(machine, TagKind::ConditionalContent)
            } else {
                Machine { queue: rest, ..machine }
            },
        ),
{
    lemma_left_behind_content(part, rest, TagKind::ConditionalContent);
    assert(print_element(
        options,
        machine,
        FormatElement::Tag(Tag::StartConditionalContent(condition)),
    )->Ok_0 =~= if condition.mode == mode {
        inside_of(machine, TagKind::ConditionalContent)
    } else {
        Machine { queue: rest, ..machine }
    });
}

/// Conditional content that names a group that was not printed before is not supported.
pub proof fn lemma_unknown_group(options: PrinterOptions, machine: Machine, id: GroupId)
    requires
        !machine.state.group_modes.contains_key(id),
    ensures
        forall|condition: Condition|
            condition.group_id == Some(id) ==> #[trigger] print_element(
                options,
                machine,
                FormatElement::Tag(Tag::StartConditionalContent(condition)),
            ) == Err::<Machine, Stop<Machine>>(Stop::Unsupported),
        print_element(
            options,
            machine,
            FormatElement::Tag(Tag::StartIndentIfGroupBreaks(id)),
        ) == Err::<Machine, Stop<Machine>>(Stop::Unsupported),
        print_element(
            options,
            machine,
            FormatElement::Tag(Tag::EndIndentIfGroupBreaks(id)),
        ) == Err::<Machine, Stop<Machine>>(Stop::Unsupported),
{
}

/// Conditional content is measured if its mode is the one that decides, and skipped otherwise. A
/// group whose mode is not known yet counts as printed in the mode of the innermost part.
pub proof fn lemma_conditional_content_measured(
    options: PrinterOptions,
    view: FitsView,
    condition: Condition,
    mode: PrintMode,
    part: Seq<FormatElement>,
    rest: Seq<FormatElement>,
)
    requires
        decides(view.stack, view.group_modes, condition.group_id, mode) || (
        condition.group_id matches Some(id) && !view.group_modes.contains_key(id) && mode
            == view.stack.last().args.mode),
        view.queue == part + rest,
        closes(part, seq![TagKind::ConditionalContent]),
        total_size(part) < usize::MAX,
    ensures
        fits_element(
            options,
            view,
            FormatElement::Tag(Tag::StartConditionalContent(condition)),
        ) == Ok::<(Fits, FitsView), Stop<FitsView>>(
            (
                Fits::Maybe,
                (if condition.mode == mode {
                    measuring_inside_of(view, TagKind::ConditionalContent)
                } else {
                    FitsView { queue: rest, ..view }
                }),
            ),
        ),
{
    lemma_left_behind_content(part, rest, TagKind::ConditionalContent);
    assert(fits_element(
        options,
        view,
        FormatElement::Tag(Tag::StartConditionalContent(condition)),
    )->Ok_0.1 =~= if condition.mode == mode {
        measuring_inside_of(view, TagKind::ConditionalContent)
    } else {
        FitsView { queue: rest, ..view }
    });
}

/// A line suffix prints nothing where it stands: its content and its end are taken from the queue,
/// and the output stays as it is.
pub proof fn lemma_line_suffix_waits(
    options: PrinterOptions,
    machine: Machine,
    part: Seq<FormatElement>,
    rest: Seq<FormatElement>,
)
    requires
        machine.queue == part + rest,
        closes(part, seq![TagKind::LineSuffix]),
        total_size(part) < usize::MAX,
    ensures
        print_element(
            options,
            machine,
            FormatElement::Tag(Tag::StartLineSuffix),
        ) matches Ok(after) && {
            &&& after.queue == rest
            &&& after.stack == machine.stack
            &&& after.indents.stack == machine.indents.stack
            &&& after.state == (StateView {
                line_suffixes: after.state.line_suffixes,
                ..machine.state
            })
            &&& after.state.line_suffixes.len() > machine.state.line_suffixes.len()
        },
{
    lemma_left_behind_content(part, rest, TagKind::LineSuffix);
}

/// Measuring passes over a line suffix, but knows of it behind it.
pub proof fn lemma_line_suffix_measured(
    options: PrinterOptions,
    view: FitsView,
    part: Seq<FormatElement>,
    rest: Seq<FormatElement>,
)
    requires
        view.queue == part + rest,
        closes(part, seq![TagKind::LineSuffix]),
        total_size(part) < usize::MAX,
    ensures
        fits_element(options, view, FormatElement::Tag(Tag::StartLineSuffix)) == Ok::<
            (Fits, FitsView),
            Stop<FitsView>,
        >((Fits::Maybe, (FitsView { queue: rest, has_line_suffix: true, ..view }))),
{
    lemma_left_behind_content(part, rest, TagKind::LineSuffix);
}

} // verus!
