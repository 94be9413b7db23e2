//! What each element does when it is printed, and when it is measured.

use crate::diagnostics::{ActualStart, InvalidDocumentError, PrintError};
use crate::format_element::{FormatElement, LineMode};
use crate::options::{IndentStyle, PrinterOptions};
use crate::printed::PrintedView;
use crate::printer::call_stack::{
    push_frame, IndentView, PrintElementArgs, PrintIndentView, StackFrame, StackFrameKind,
};
use crate::printer::fits::{
    fits_content, fits_element, lemma_fits_element_progress, Fits, FitsEnd, FitsView,
};
use crate::printer::indention::Indention;
use crate::printer::laws::conditions::{inside_of, measuring_inside_of};
use crate::printer::laws::lines::lemma_elements_queued;
use crate::printer::laws::nesting::lemma_entries_queued_concat;
use crate::printer::line_suffixes::SuffixEntry;
use crate::printer::machine::{entries_queued, print_end, Machine};
use crate::printer::outcome::{
    at_end, lemma_next_progress, print_element, print_entry, print_next, print_queue,
    printed_document,
};
use crate::printer::queue::split_content;
use crate::printer::state::{initial_state, Halt, StateView, Stop};
use crate::printer::text::after_str;
use crate::tag::{
    Align, DedentMode, Group, GroupId, GroupMode, PrintMode, Tag, TagKind, VerbatimKind,
};
use crate::text_size::{byte_len, TextRange, TextSize};
use vstd::prelude::*;

verus! {

/// A space that comes behind something on its line is printed before the next text. At the start of
/// a line it is left out.
pub proof fn lemma_space_waits(options: PrinterOptions, machine: Machine, element: FormatElement)
    requires
        element is Space || element is HardSpace,
    ensures
        print_element(options, machine, element) == Ok::<Machine, Stop<Machine>>(
            Machine {
                state: StateView {
                    pending_space: machine.state.pending_space || machine.state.line_width > 0,
                    ..machine.state
                },
                ..machine
            },
        ),
{
}

/// In flat mode a soft line break that may be a space is a space, and any other soft line break is
/// nothing.
pub proof fn lemma_soft_line_is_space(options: PrinterOptions, machine: Machine)
    requires
        machine.stack.last().args.mode == PrintMode::Flat,
    ensures
        print_element(options, machine, FormatElement::Line(LineMode::Soft)) == Ok::<
            Machine,
            Stop<Machine>,
        >(machine),
        print_element(options, machine, FormatElement::Line(LineMode::SoftOrSpace))
            == print_element(options, machine, FormatElement::Space),
{
    assert(print_element(options, machine, FormatElement::Line(LineMode::Soft))->Ok_0 =~= machine);
}

/// How many line endings a line break adds to the output: one if the line has any content, and one
/// more for an empty line, unless there is an empty line already.
pub open spec fn line_endings(state: StateView, line_mode: LineMode) -> nat {
    (if state.line_width > 0 {
        1nat
    } else {
        0
    }) + (if line_mode == LineMode::Empty && (state.line_width > 0 || !state.has_empty_line) {
        1nat
    } else {
        0
    })
}

/// The line endings one after the other.
pub open spec fn endings(options: PrinterOptions, count: nat) -> Seq<char> {
    if count == 0 {
        Seq::empty()
    } else if count == 1 {
        options.line_ending.chars()
    } else {
        options.line_ending.chars() + options.line_ending.chars()
    }
}

proof fn lemma_single_line_ending(options: PrinterOptions, state: StateView)
    requires
        state.generated_line < usize::MAX,
    ensures
        after_str(options, state, seq!['\n']) == Ok::<StateView, Halt>(
            StateView {
                buffer: state.buffer + options.line_ending.chars(),
                generated_line: state.generated_line + 1,
                generated_column: 0,
                line_width: 0,
                measured_group_fits: false,
                has_empty_line: false,
                ..state
            },
        ),
{
    let content = seq!['\n'];
    assert(content.drop_last() =~= Seq::empty());
    assert(after_str(options, state, content.drop_last()) == Ok::<StateView, Halt>(state));
}

/// A line break, which a soft one is in expanded mode only, adds its line endings to the output, and
/// nothing else. The next text starts a line with the current indention. What was measured holds no
/// more behind a line break in flat mode or a line ending.
pub proof fn lemma_line_break(options: PrinterOptions, machine: Machine, line_mode: LineMode)
    requires
        machine.stack.last().args.mode == PrintMode::Expanded || line_mode == LineMode::Hard
            || line_mode == LineMode::Empty,
        machine.state.line_suffixes.len() == 0,
        machine.state.line_width >= 0,
        machine.state.generated_line + 2 <= usize::MAX,
        machine.indents.stack.indentions.len() > 0,
    ensures
        print_element(options, machine, FormatElement::Line(line_mode)) matches Ok(after) && {
            let count = line_endings(machine.state, line_mode);
            after == (Machine {
                state: StateView {
                    buffer: machine.state.buffer + endings(options, count),
                    line_width: 0,
                    pending_space: false,
                    pending_indent: machine.indents.stack.indentions.last(),
                    measured_group_fits: machine.state.measured_group_fits && count == 0
                        && machine.stack.last().args.mode == PrintMode::Expanded,
                    has_empty_line: line_mode == LineMode::Empty || (machine.state.has_empty_line
                        && count == 0),
                    generated_line: machine.state.generated_line + count,
                    generated_column: if count == 0 {
                        machine.state.generated_column
                    } else {
                        0
                    },
                    ..machine.state
                },
                ..machine
            })
        },
{
    let start = if machine.stack.last().args.mode == PrintMode::Flat {
        machine.with_measured(false)
    } else {
        machine
    };
    let count = line_endings(machine.state, line_mode);
    lemma_single_line_ending(options, start.state);
    let fresh = if start.state.line_width > 0 {
        after_str(options, start.state, seq!['\n'])->Ok_0
    } else {
        start.state
    };
    lemma_single_line_ending(options, fresh);
    let after = print_element(options, machine, FormatElement::Line(line_mode))->Ok_0;
    assert(after.state.buffer =~= machine.state.buffer + endings(options, count));
}

/// A line suffix that waits: its elements, and the mode that it is printed in.
pub struct Waiting {
    pub content: Seq<FormatElement>,
    pub mode: PrintMode,
}

/// The pending entries of line suffixes, in their order.
pub open spec fn waiting_entries(waiting: Seq<Waiting>) -> Seq<SuffixEntry>
    decreases waiting.len(),
{
    if waiting.len() == 0 {
        Seq::empty()
    } else {
        waiting_entries(waiting.drop_last()) + waiting.last().content.map_values(
            |element: FormatElement| SuffixEntry::Suffix(element),
        ).push(SuffixEntry::Args(PrintElementArgs { mode: waiting.last().mode }))
    }
}

/// The elements of line suffixes, in their order, each with its end behind it.
pub open spec fn waiting_elements(waiting: Seq<Waiting>) -> Seq<FormatElement>
    decreases waiting.len(),
{
    if waiting.len() == 0 {
        Seq::empty()
    } else {
        waiting_elements(waiting.drop_last()) + waiting.last().content.push(
            FormatElement::Tag(Tag::EndLineSuffix),
        )
    }
}

/// The parts of line suffixes, the first one innermost.
pub open spec fn waiting_frames(waiting: Seq<Waiting>) -> Seq<StackFrame>
    decreases waiting.len(),
{
    if waiting.len() == 0 {
        Seq::empty()
    } else {
        seq![
            StackFrame {
                kind: StackFrameKind::Tag(TagKind::LineSuffix),
                args: PrintElementArgs { mode: waiting.last().mode },
            },
        ] + waiting_frames(waiting.drop_last())
    }
}

proof fn lemma_waiting_queued(
    waiting: Seq<Waiting>,
    stack: Seq<StackFrame>,
    queue: Seq<FormatElement>,
)
    ensures
        entries_queued(waiting_entries(waiting), stack, queue) == (
            stack + waiting_frames(waiting),
            waiting_elements(waiting) + queue,
        ),
    decreases waiting.len(),
{
    if waiting.len() == 0 {
        assert(stack + waiting_frames(waiting) =~= stack);
        assert(waiting_elements(waiting) + queue =~= queue);
    } else {
        let before = waiting.drop_last();
        let last = waiting.last();
        let args = PrintElementArgs { mode: last.mode };
        let end = seq![FormatElement::Tag(Tag::EndLineSuffix)];
        let elements = last.content.map_values(
            |element: FormatElement| SuffixEntry::Suffix(element),
        );
        let entries = waiting_entries(waiting);
        let earlier = waiting_entries(before);
        assert(entries =~= (earlier + elements).push(SuffixEntry::Args(args)));
        assert(entries.drop_last() =~= earlier + elements);
        let pushed = push_frame(stack, TagKind::LineSuffix, args);
        lemma_entries_queued_concat(earlier, elements, pushed, end + queue);
        lemma_elements_queued(last.content, pushed, end + queue);
        lemma_waiting_queued(before, pushed, last.content + (end + queue));
        assert(pushed + waiting_frames(before) =~= stack + waiting_frames(waiting));
        assert(waiting_elements(before) + (last.content + (end + queue)) =~= waiting_elements(
            waiting,
        ) + queue);
    }
}

/// A line suffix waits behind those that wait already, in the mode of the innermost part and with the
/// current indention.
pub proof fn lemma_line_suffix_is_last(
    options: PrinterOptions,
    machine: Machine,
    waiting: Seq<Waiting>,
    content: Seq<FormatElement>,
    rest: Seq<FormatElement>,
)
    requires
        machine.state.line_suffixes == waiting_entries(waiting),
        split_content(machine.queue, TagKind::LineSuffix, 1) == Some((content, rest)),
        machine.indents.stack.indentions.len() > 0,
    ensures
        print_element(options, machine, FormatElement::Tag(Tag::StartLineSuffix)) matches Ok(after)
            && {
            &&& after.state == (StateView {
                line_suffixes: waiting_entries(
                    waiting.push(
                        (Waiting { content, mode: machine.stack.last().args.mode }),
                    ),
                ),
                ..machine.state
            })
            &&& after.queue == rest
            &&& after.stack == machine.stack
            &&& after.indents.stack == machine.indents.stack
            &&& after.indents.suffixes == machine.indents.suffixes.push(
                machine.indents.stack.indentions.last(),
            )
        },
{
    let added = waiting.push((Waiting { content, mode: machine.stack.last().args.mode }));
    assert(added.drop_last() =~= waiting);
    let after = print_element(
        options,
        machine,
        FormatElement::Tag(Tag::StartLineSuffix),
    )->Ok_0;
    assert(after.state.line_suffixes =~= waiting_entries(added));
}

/// What is queued in front of the line break that the waiting line suffixes are printed before.
pub open spec fn suffixes_first(
    machine: Machine,
    waiting: Seq<Waiting>,
    line_mode: LineMode,
) -> Machine {
    Machine {
        state: StateView { line_suffixes: Seq::empty(), ..machine.state },
        stack: machine.stack + waiting_frames(waiting),
        indents: PrintIndentView {
            stack: IndentView {
                indentions: machine.indents.stack.indentions + machine.indents.suffixes.reverse(),
                ..machine.indents.stack
            },
            suffixes: Seq::empty(),
        },
        queue: waiting_elements(waiting) + seq![FormatElement::Line(line_mode)] + machine.queue,
    }
}

/// A line break prints the line suffixes that wait for it first, in their order and each with its
/// indention and mode. Only then it ends the line.
pub proof fn lemma_line_suffixes_first(
    options: PrinterOptions,
    machine: Machine,
    waiting: Seq<Waiting>,
    line_mode: LineMode,
)
    requires
        waiting.len() > 0,
        machine.state.line_suffixes == waiting_entries(waiting),
        machine.stack.last().args.mode == PrintMode::Expanded,
    ensures
        print_element(options, machine, FormatElement::Line(line_mode)) == Ok::<
            Machine,
            Stop<Machine>,
        >(suffixes_first(machine, waiting, line_mode)),
{
    let element = FormatElement::Line(line_mode);
    let queue = seq![element] + machine.queue;
    lemma_waiting_queued(waiting, machine.stack, queue);
    assert(waiting_entries(waiting).len() > 0);
    assert(waiting_elements(waiting) + queue =~= waiting_elements(waiting) + seq![element]
        + machine.queue);
    assert(print_element(options, machine, element)->Ok_0 =~= suffixes_first(
        machine,
        waiting,
        line_mode,
    ));
}

/// A hard line break in flat mode prints the waiting line suffixes first, too, and what was measured
/// holds no more.
pub proof fn lemma_line_suffixes_first_in_flat_mode(
    options: PrinterOptions,
    machine: Machine,
    waiting: Seq<Waiting>,
    line_mode: LineMode,
)
    requires
        waiting.len() > 0,
        machine.state.line_suffixes == waiting_entries(waiting),
        machine.stack.last().args.mode == PrintMode::Flat,
        line_mode == LineMode::Hard || line_mode == LineMode::Empty,
    ensures
        print_element(options, machine, FormatElement::Line(line_mode)) == Ok::<
            Machine,
            Stop<Machine>,
        >(suffixes_first(machine.with_measured(false), waiting, line_mode)),
{
    let element = FormatElement::Line(line_mode);
    let queue = seq![element] + machine.queue;
    lemma_waiting_queued(waiting, machine.stack, queue);
    assert(waiting_entries(waiting).len() > 0);
    assert(waiting_elements(waiting) + queue =~= waiting_elements(waiting) + seq![element]
        + machine.queue);
    assert(print_element(options, machine, element)->Ok_0 =~= suffixes_first(
        machine.with_measured(false),
        waiting,
        line_mode,
    ));
}

/// A boundary for line suffixes ends the line behind the waiting ones with a hard line break, and
/// does nothing where none waits.
pub proof fn lemma_boundary(options: PrinterOptions, machine: Machine, waiting: Seq<Waiting>)
    requires
        machine.state.line_suffixes == waiting_entries(waiting),
    ensures
        print_element(options, machine, FormatElement::LineSuffixBoundary) == Ok::<
            Machine,
            Stop<Machine>,
        >(
            if waiting.len() == 0 {
                machine
            } else {
                suffixes_first(machine, waiting, LineMode::Hard)
            },
        ),
{
    let element = FormatElement::Line(LineMode::Hard);
    let queue = seq![element] + machine.queue;
    lemma_waiting_queued(waiting, machine.stack, queue);
    if waiting.len() > 0 {
        assert(waiting_entries(waiting).len() > 0);
        assert(waiting_elements(waiting) + queue =~= waiting_elements(waiting) + seq![element]
            + machine.queue);
        assert(print_element(options, machine, FormatElement::LineSuffixBoundary)->Ok_0
            =~= suffixes_first(machine, waiting, LineMode::Hard));
    }
}

/// Shared content is printed like the content itself, and an element that only expands its parent
/// prints nothing.
pub proof fn lemma_content_in_place(
    options: PrinterOptions,
    machine: Machine,
    element: FormatElement,
)
    ensures
        element matches FormatElement::Interned(content) ==> print_element(
            options,
            machine,
            element,
        ) == Ok::<Machine, Stop<Machine>>(
            (Machine { queue: content@ + machine.queue, ..machine }),
        ),
        element is ExpandParent ==> print_element(options, machine, element) == Ok::<
            Machine,
            Stop<Machine>,
        >(machine),
{
}

/// The indention that is one level deeper. With tabs an align becomes a level of its own, and with
/// spaces it stays.
pub open spec fn deeper(indention: Indention, style: IndentStyle) -> Indention {
    match (indention, style) {
        (Indention::Level(level), _) => Indention::Level((level + 1) as u16),
        (Indention::Align { level, .. }, IndentStyle::Tab) => Indention::Level((level + 2) as u16),
        (Indention::Align { level, align, align_count }, IndentStyle::Space) => Indention::Align {
            level: (level + 1) as u16,
            align,
            align_count,
        },
    }
}

/// The machine inside of a part with another current indention.
pub open spec fn indented_inside(machine: Machine, kind: TagKind, indention: Indention) -> Machine {
    Machine {
        indents: PrintIndentView {
            stack: IndentView {
                indentions: machine.indents.stack.indentions.push(indention),
                ..machine.indents.stack
            },
            ..machine.indents
        },
        ..inside_of(machine, kind)
    }
}

/// The content of an indent is one level deeper, and nothing else changes at its start.
pub proof fn lemma_indent_is_deeper(options: PrinterOptions, machine: Machine)
    requires
        machine.indents.stack.indentions.len() > 0,
        machine.indents.stack.indentions.last().levels() + 2 <= u16::MAX,
    ensures
        print_element(options, machine, FormatElement::Tag(Tag::StartIndent)) == Ok::<
            Machine,
            Stop<Machine>,
        >(
            indented_inside(
                machine,
                TagKind::Indent,
                deeper(machine.indents.stack.indentions.last(), options.indent_style),
            ),
        ),
{
    assert(print_element(options, machine, FormatElement::Tag(Tag::StartIndent))->Ok_0
        =~= indented_inside(
        machine,
        TagKind::Indent,
        deeper(machine.indents.stack.indentions.last(), options.indent_style),
    ));
}

/// The content that is indented if a group breaks is one level deeper if that group was printed in
/// expanded mode, and as deep as before otherwise. Its end undoes that.
pub proof fn lemma_indent_if_group_breaks(
    options: PrinterOptions,
    machine: Machine,
    id: GroupId,
)
    requires
        machine.state.group_modes.contains_key(id),
        machine.indents.stack.indentions.len() > 0,
        machine.indents.stack.indentions.last().levels() + 2 <= u16::MAX,
    ensures
        ({
            let inside = if machine.state.group_modes[id] == PrintMode::Expanded {
                indented_inside(
                    machine,
                    TagKind::IndentIfGroupBreaks,
                    deeper(machine.indents.stack.indentions.last(), options.indent_style),
                )
            } else {
                inside_of(machine, TagKind::IndentIfGroupBreaks)
            };
            &&& print_element(
                options,
                machine,
                FormatElement::Tag(Tag::StartIndentIfGroupBreaks(id)),
            ) == Ok::<Machine, Stop<Machine>>(inside)
            &&& print_element(
                options,
                inside,
                FormatElement::Tag(Tag::EndIndentIfGroupBreaks(id)),
            ) == Ok::<Machine, Stop<Machine>>(machine)
        }),
{
    let inside = if machine.state.group_modes[id] == PrintMode::Expanded {
        indented_inside(
            machine,
            TagKind::IndentIfGroupBreaks,
            deeper(machine.indents.stack.indentions.last(), options.indent_style),
        )
    } else {
        inside_of(machine, TagKind::IndentIfGroupBreaks)
    };
    assert(print_element(
        options,
        machine,
        FormatElement::Tag(Tag::StartIndentIfGroupBreaks(id)),
    )->Ok_0 =~= inside);
    assert(inside.stack.drop_last() =~= machine.stack);
    assert(inside.indents.stack.indentions.len() > machine.indents.stack.indentions.len()
        ==> inside.indents.stack.indentions.drop_last() =~= machine.indents.stack.indentions);
    assert(print_element(
        options,
        inside,
        FormatElement::Tag(Tag::EndIndentIfGroupBreaks(id)),
    )->Ok_0 =~= machine);
}

/// The content of an align is as many spaces deeper. An align inside of another one adds its spaces,
/// up to the largest count, and is a level deeper.
pub proof fn lemma_align_is_deeper(options: PrinterOptions, machine: Machine, align: Align)
    requires
        machine.indents.stack.indentions.len() > 0,
        machine.indents.stack.indentions.last() matches Indention::Align { level, align_count, .. }
            ==> level < u16::MAX && align_count < u16::MAX,
    ensures
        print_element(options, machine, FormatElement::Tag(Tag::StartAlign(align))) matches Ok(
            inside,
        ) && {
            let current = machine.indents.stack.indentions.last();
            let indention = inside.indents.stack.indentions.last();
            &&& inside == indented_inside(machine, TagKind::Align, indention)
            &&& indention is Align
            &&& match current {
                Indention::Level(level) => indention == (Indention::Align {
                    level,
                    align,
                    align_count: 1,
                }),
                Indention::Align { level, align: before, align_count } => {
                    &&& indention->level == level + 1
                    &&& indention->align_count == align_count + 1
                    &&& indention->align.spaces() == (if before.spaces() + align.spaces()
                        <= u8::MAX {
                        before.spaces() + align.spaces()
                    } else {
                        u8::MAX as int
                    })
                },
            }
        },
{
    let current = machine.indents.stack.indentions.last();
    if let Indention::Align { align: before, .. } = current {
        before.lemma_plus(align);
    }
    let inside = print_element(
        options,
        machine,
        FormatElement::Tag(Tag::StartAlign(align)),
    )->Ok_0;
    assert(inside =~= indented_inside(
        machine,
        TagKind::Align,
        inside.indents.stack.indentions.last(),
    ));
}

/// The content of a dedent has the indention from around the current one, or none at all if the
/// dedent goes to the root.
pub proof fn lemma_dedent_is_less_deep(options: PrinterOptions, machine: Machine)
    requires
        machine.indents.stack.indentions.len() > 0,
    ensures
        print_element(
            options,
            machine,
            FormatElement::Tag(Tag::StartDedent(DedentMode::Root)),
        ) == Ok::<Machine, Stop<Machine>>(
            indented_inside(machine, TagKind::Dedent, Indention::Level(0)),
        ),
        print_element(
            options,
            machine,
            FormatElement::Tag(Tag::StartDedent(DedentMode::Level)),
        ) matches Ok(inside) && {
            &&& inside.indents.stack.indentions == machine.indents.stack.indentions.drop_last()
            &&& inside.state == machine.state
            &&& inside.queue == machine.queue
            &&& inside.stack == inside_of(machine, TagKind::Dedent).stack
        },
{
    assert(print_element(
        options,
        machine,
        FormatElement::Tag(Tag::StartDedent(DedentMode::Root)),
    )->Ok_0 =~= indented_inside(machine, TagKind::Dedent, Indention::Level(0)));
}

/// Entries and labelled parts start without any effect but that they are open.
pub proof fn lemma_plain_parts(options: PrinterOptions, machine: Machine, tag: Tag)
    requires
        tag == Tag::StartEntry || tag is StartLabelled,
    ensures
        print_element(options, machine, FormatElement::Tag(tag)) == Ok::<Machine, Stop<Machine>>(
            inside_of(
                machine,
                if tag == Tag::StartEntry {
                    TagKind::Entry
                } else {
                    TagKind::Labelled
                },
            ),
        ),
{
    assert(print_element(options, machine, FormatElement::Tag(tag))->Ok_0 =~= inside_of(
        machine,
        if tag == Tag::StartEntry {
            TagKind::Entry
        } else {
            TagKind::Labelled
        },
    ));
}

/// The range of a verbatim part is recorded: it starts at the end of the output and is as long as the
/// part is in the source. Other parts that are printed as they are leave no range.
pub proof fn lemma_verbatim_range(options: PrinterOptions, machine: Machine, kind: VerbatimKind)
    requires
        byte_len(machine.state.buffer) <= u32::MAX,
        kind matches VerbatimKind::Verbatim { length } ==> byte_len(machine.state.buffer)
            + length.raw <= u32::MAX,
    ensures
        print_element(options, machine, FormatElement::Tag(Tag::StartVerbatim(kind))) matches Ok(
            inside,
        ) && {
            &&& inside == (Machine {
                state: StateView {
                    verbatim_markers: inside.state.verbatim_markers,
                    ..machine.state
                },
                ..inside_of(machine, TagKind::Verbatim)
            })
            &&& match kind {
                VerbatimKind::Verbatim { length } => inside.state.verbatim_markers
                    == machine.state.verbatim_markers.push(
                    (TextRange {
                        start: TextSize { raw: byte_len(machine.state.buffer) as u32 },
                        end: TextSize {
                            raw: (byte_len(machine.state.buffer) + length.raw) as u32,
                        },
                    }),
                ),
                _ => inside.state.verbatim_markers == machine.state.verbatim_markers,
            }
        },
{
    let inside = print_element(
        options,
        machine,
        FormatElement::Tag(Tag::StartVerbatim(kind)),
    )->Ok_0;
    assert(inside =~= (Machine {
        state: StateView {
            verbatim_markers: inside.state.verbatim_markers,
            ..machine.state
        },
        ..inside_of(machine, TagKind::Verbatim)
    }));
}

/// Whether the end tag goes back to the indention before the current one.
pub open spec fn ends_indention(tag: Tag) -> bool {
    match tag {
        Tag::EndIndent | Tag::EndAlign | Tag::EndLineSuffix => true,
        Tag::EndDedent(DedentMode::Root) => true,
        _ => false,
    }
}

/// The end of a part takes its frame from the stack and, if the part had an indention of its own,
/// that indention. Nothing is printed.
pub proof fn lemma_part_ends(options: PrinterOptions, machine: Machine, tag: Tag)
    requires
        !tag.starts(),
        !(tag is EndIndentIfGroupBreaks),
        tag != Tag::EndDedent(DedentMode::Level),
        machine.stack.len() > 0,
        machine.stack.last().kind == StackFrameKind::Tag(tag.marks()),
        machine.indents.stack.indentions.len() > 0,
    ensures
        print_element(options, machine, FormatElement::Tag(tag)) == Ok::<Machine, Stop<Machine>>(
            (Machine {
                stack: machine.stack.drop_last(),
                indents: if ends_indention(tag) {
                    PrintIndentView {
                        stack: IndentView {
                            indentions: machine.indents.stack.indentions.drop_last(),
                            ..machine.indents.stack
                        },
                        ..machine.indents
                    }
                } else {
                    machine.indents
                },
                ..machine
            }),
        ),
{
}

/// An end tag that does not match the innermost part is an error that names both, and an end tag
/// outside of all parts one that names the tag.
pub proof fn lemma_end_without_start(machine: Machine, tag: Tag, open: StackFrameKind)
    requires
        !tag.starts(),
        !(tag is EndIndentIfGroupBreaks),
        machine.stack.len() > 0,
        machine.stack.last().kind == open,
        open != StackFrameKind::Tag(tag.marks()),
    ensures
        print_end(machine, tag) matches Err(stop) && stop.halt() == Halt::Error(
            PrintError::InvalidDocument(
                match open {
                    StackFrameKind::Root => InvalidDocumentError::StartTagMissing {
                        kind: tag.marks(),
                    },
                    StackFrameKind::Tag(kind) => InvalidDocumentError::StartEndTagMismatch {
                        start_kind: kind,
                        end_kind: tag.marks(),
                    },
                },
            ),
        ),
{
}

/// Where an entry is expected, anything else is an error that names what is there.
pub proof fn lemma_entry_expected(
    options: PrinterOptions,
    machine: Machine,
    args: PrintElementArgs,
)
    requires
        machine.queue.len() == 0 || (!(machine.queue[0] is Interned) && machine.queue[0]
            != FormatElement::Tag(Tag::StartEntry)),
    ensures
        print_entry(options, machine, args) matches Err(stop) && stop.halt() == Halt::Error(
            PrintError::InvalidDocument(
                InvalidDocumentError::ExpectedStart {
                    expected_start: TagKind::Entry,
                    actual: if machine.queue.len() == 0 {
                        ActualStart::EndOfDocument
                    } else {
                        match machine.queue[0] {
                            FormatElement::Tag(tag) => if tag.starts() {
                                ActualStart::Start(tag.marks())
                            } else {
                                ActualStart::End(tag.marks())
                            },
                            _ => ActualStart::Content,
                        }
                    },
                },
            ),
        ),
{
}

/// A group that must be expanded is printed in expanded mode without measuring it, and a group inside
/// of content that is known to fit in flat mode. The mode is recorded if the group has an id.
pub proof fn lemma_group_without_measuring(
    options: PrinterOptions,
    machine: Machine,
    group: Group,
    mode: PrintMode,
)
    requires
        mode == PrintMode::Expanded && group.mode != GroupMode::Flat || mode == PrintMode::Flat
            && group.mode == GroupMode::Flat && machine.stack.last().args.mode == PrintMode::Flat
            && machine.state.measured_group_fits,
    ensures
        print_element(options, machine, FormatElement::Tag(Tag::StartGroup(group))) == Ok::<
            Machine,
            Stop<Machine>,
        >(
            (Machine {
                state: StateView {
                    group_modes: match group.id {
                        Some(id) => machine.state.group_modes.insert(id, mode),
                        None => machine.state.group_modes,
                    },
                    ..machine.state
                },
                stack: machine.stack.push(
                    StackFrame {
                        kind: StackFrameKind::Tag(TagKind::Group),
                        args: PrintElementArgs { mode },
                    },
                ),
                ..machine
            }),
        ),
{
}

/// The elements of a document are printed one after the other. When none is left, the line suffixes
/// that still wait are printed, and nothing else.
pub proof fn lemma_one_after_the_other(
    options: PrinterOptions,
    machine: Machine,
    waiting: Seq<Waiting>,
)
    ensures
        machine.queue.len() == 0 ==> print_queue(options, machine) == Ok::<Machine, Stop<Machine>>(
            machine,
        ),
        machine.queue.len() > 0 ==> match print_element(
            options,
            (Machine { queue: machine.queue.drop_first(), ..machine }),
            machine.queue[0],
        ) {
            Err(stop) => print_queue(options, machine) == Err::<Machine, Stop<Machine>>(stop),
            Ok(after) => {
                &&& after.queue.len() > 0 || after.state.line_suffixes.len() == 0 ==> print_queue(
                    options,
                    machine,
                ) == print_queue(options, after)
                &&& after.queue.len() == 0 && after.state.line_suffixes == waiting_entries(waiting)
                    && waiting.len() > 0 ==> print_queue(options, machine) == print_queue(
                    options,
                    (Machine {
                        queue: waiting_elements(waiting),
                        ..suffixes_first(after, waiting, LineMode::Hard)
                    }),
                )
            },
        },
{
    if machine.queue.len() > 0 {
        reveal(print_next);
        lemma_next_progress(options, machine);
        if let Ok(after) = print_element(options, machine.popped(), machine.queue[0]) {
            if after.queue.len() == 0 && after.state.line_suffixes == waiting_entries(waiting)
                && waiting.len() > 0 {
                lemma_waiting_queued(waiting, after.stack, after.queue);
                assert(waiting_entries(waiting).len() > 0);
                assert(waiting_elements(waiting) + after.queue =~= waiting_elements(waiting));
                assert(at_end(after) =~= (Machine {
                    queue: waiting_elements(waiting),
                    ..suffixes_first(after, waiting, LineMode::Hard)
                }));
            }
        }
    }
}

/// Sharing content makes no difference to what is printed.
pub proof fn lemma_sharing_makes_no_difference(
    options: PrinterOptions,
    machine: Machine,
    element: FormatElement,
    content: Seq<FormatElement>,
    rest: Seq<FormatElement>,
)
    requires
        element matches FormatElement::Interned(shared) && shared@ == content,
        machine.queue == seq![element] + rest,
        content.len() + rest.len() > 0,
    ensures
        print_queue(options, machine) == print_queue(
            options,
            (Machine { queue: content + rest, ..machine }),
        ),
{
    assert(machine.queue.drop_first() =~= rest);
    assert(machine.popped().queueing(content) =~= (Machine { queue: content + rest, ..machine }));
    lemma_one_after_the_other(options, machine, Seq::empty());
}

/// Printing a document starts with no output at the start of a line, in expanded mode and with the
/// given indent behind the first line break. The code is all that was printed, and the whole document
/// is printed.
pub proof fn lemma_document_starts_and_ends(
    options: PrinterOptions,
    document: Seq<FormatElement>,
    indent: u16,
)
    ensures
        ({
            let start = Machine {
                state: StateView {
                    buffer: Seq::empty(),
                    source_markers: Seq::empty(),
                    source_position: TextSize { raw: 0 },
                    pending_indent: Indention::Level(0),
                    pending_space: false,
                    measured_group_fits: false,
                    generated_line: 0,
                    generated_column: 0,
                    line_width: 0,
                    has_empty_line: false,
                    line_suffixes: Seq::empty(),
                    verbatim_markers: Seq::empty(),
                    group_modes: Map::empty(),
                },
                stack: seq![
                    StackFrame {
                        kind: StackFrameKind::Root,
                        args: PrintElementArgs { mode: PrintMode::Expanded },
                    },
                ],
                indents: PrintIndentView {
                    stack: IndentView {
                        indentions: seq![Indention::Level(indent)],
                        history: Seq::empty(),
                    },
                    suffixes: Seq::empty(),
                },
                queue: document,
            };
            printed_document(options, initial_state(), document, indent) == match print_queue(
                options,
                start,
            ) {
                Err(stop) => Err(stop.halt()),
                Ok(end) => Ok(
                    (PrintedView {
                        code: end.state.buffer,
                        range: None,
                        sourcemap: end.state.source_markers,
                        verbatim_ranges: end.state.verbatim_markers,
                    }),
                ),
            }
        }),
{
}

/// Measuring a space counts it before the next text, unless the line is empty. A hard space counts at
/// once.
pub proof fn lemma_space_measured(options: PrinterOptions, view: FitsView)
    requires
        view.line_width < usize::MAX,
    ensures
        fits_element(options, view, FormatElement::Space) == Ok::<
            (Fits, FitsView),
            Stop<FitsView>,
        >(
            (
                Fits::Maybe,
                (FitsView { pending_space: view.pending_space || view.line_width > 0, ..view }),
            ),
        ),
        fits_element(options, view, FormatElement::HardSpace) == Ok::<
            (Fits, FitsView),
            Stop<FitsView>,
        >(
            (
                if view.line_width < options.print_width.columns {
                    Fits::Maybe
                } else {
                    Fits::No
                },
                (FitsView { line_width: view.line_width + 1, ..view }),
            ),
        ),
{
}

/// A line break ends measuring with the answer that everything before it fits. In flat mode a soft
/// line break is measured like the space that it may be.
pub proof fn lemma_line_measured(options: PrinterOptions, view: FitsView, line_mode: LineMode)
    ensures
        fits_element(options, view, FormatElement::Line(line_mode)) == Ok::<
            (Fits, FitsView),
            Stop<FitsView>,
        >(
            if view.stack.last().args.mode == PrintMode::Expanded || line_mode == LineMode::Hard
                || line_mode == LineMode::Empty {
                (Fits::Yes, view)
            } else {
                (
                    Fits::Maybe,
                    (FitsView {
                        pending_space: view.pending_space || line_mode == LineMode::SoftOrSpace,
                        ..view
                    }),
                )
            },
        ),
{
}

/// What forces the line to end does not fit: a boundary behind a line suffix, and where nothing may be
/// expanded, an element that expands its parent and a group that must be expanded.
pub proof fn lemma_forced_breaks_measured(options: PrinterOptions, view: FitsView, group: Group)
    ensures
        fits_element(options, view, FormatElement::LineSuffixBoundary) == Ok::<
            (Fits, FitsView),
            Stop<FitsView>,
        >(
            (
                if view.has_line_suffix {
                    Fits::No
                } else {
                    Fits::Maybe
                },
                view,
            ),
        ),
        fits_element(options, view, FormatElement::ExpandParent) == Ok::<
            (Fits, FitsView),
            Stop<FitsView>,
        >(
            (
                if view.must_be_flat {
                    Fits::No
                } else {
                    Fits::Maybe
                },
                view,
            ),
        ),
        fits_element(options, view, FormatElement::Tag(Tag::StartGroup(group))) matches Ok(
            (fits, after),
        ) && {
            let mode = if group.mode == GroupMode::Flat {
                view.stack.last().args.mode
            } else {
                PrintMode::Expanded
            };
            if view.must_be_flat && group.mode != GroupMode::Flat {
                fits == Fits::No
            } else {
                &&& fits == Fits::Maybe
                &&& after == (FitsView {
                    stack: view.stack.push(
                        StackFrame {
                            kind: StackFrameKind::Tag(TagKind::Group),
                            args: PrintElementArgs { mode },
                        },
                    ),
                    group_modes: match group.id {
                        Some(id) => view.group_modes.insert(id, mode),
                        None => view.group_modes,
                    },
                    ..view
                })
            }
        },
{
}

/// Shared content is measured like the content itself.
pub proof fn lemma_content_measured(
    options: PrinterOptions,
    view: FitsView,
    element: FormatElement,
)
    requires
        element is Interned,
    ensures
        element matches FormatElement::Interned(content) && fits_element(options, view, element)
            == Ok::<(Fits, FitsView), Stop<FitsView>>(
            (Fits::Maybe, (FitsView { queue: content@ + view.queue, ..view })),
        ),
{
}

/// Measuring the start of a part that only indents, marks or holds its content goes on inside of the
/// part in the same mode.
pub proof fn lemma_part_measured(options: PrinterOptions, view: FitsView, tag: Tag)
    requires
        tag == Tag::StartIndent || tag is StartAlign || tag is StartDedent || tag == Tag::StartFill
            || tag == Tag::StartEntry || tag is StartVerbatim || tag is StartLabelled
            || tag is StartIndentIfGroupBreaks,
        view.indents.indentions.len() > 0,
        view.indents.indentions.last().levels() + 2 <= u16::MAX,
        view.indents.indentions.last() matches Indention::Align { align_count, .. } ==> align_count
            < u16::MAX,
    ensures
        fits_element(options, view, FormatElement::Tag(tag)) matches Ok((fits, inside)) && {
            &&& fits == Fits::Maybe
            &&& inside == (FitsView {
                indents: inside.indents,
                ..measuring_inside_of(view, tag.marks())
            })
        },
{
}

/// Measuring the end of a part goes on behind it.
pub proof fn lemma_part_end_measured(options: PrinterOptions, view: FitsView, tag: Tag)
    requires
        !tag.starts(),
        tag != Tag::EndLineSuffix,
        view.stack.len() > 0,
        view.stack.last().kind == StackFrameKind::Tag(tag.marks()),
    ensures
        fits_element(options, view, FormatElement::Tag(tag)) matches Ok((fits, after)) && {
            &&& fits == Fits::Maybe
            &&& after == (FitsView {
                stack: view.stack.drop_last(),
                indents: after.indents,
                ..view
            })
        },
{
}

/// Elements are measured one after the other, up to the first that fits for sure or does not fit.
/// Where nothing is left, everything fits.
pub proof fn lemma_measured_one_after_the_other(options: PrinterOptions, view: FitsView)
    ensures
        view.queue.len() == 0 ==> fits_content(options, view, FitsEnd::Document) == Ok::<
            _,
            Stop<(FitsView, FitsEnd)>,
        >((true, view, FitsEnd::Document)),
        view.queue.len() > 0 ==> match fits_element(
            options,
            (FitsView { queue: view.queue.drop_first(), ..view }),
            view.queue[0],
        ) {
            Ok((Fits::Yes, after)) => fits_content(options, view, FitsEnd::Document) == Ok::<
                _,
                Stop<(FitsView, FitsEnd)>,
            >((true, after, FitsEnd::Document)),
            Ok((Fits::No, after)) => fits_content(options, view, FitsEnd::Document) == Ok::<
                _,
                Stop<(FitsView, FitsEnd)>,
            >((false, after, FitsEnd::Document)),
            Ok((Fits::Maybe, after)) => fits_content(options, view, FitsEnd::Document)
                == fits_content(options, after, FitsEnd::Document),
            Err(_) => fits_content(options, view, FitsEnd::Document) is Err,
        },
{
    if view.queue.len() > 0 {
        lemma_fits_element_progress(options, view);
    }
}

} // verus!
