//! What the terms mean that the other laws are stated in.

use crate::diagnostics::{InvalidDocumentError, PrintError};
use crate::format_element::FormatElement;
use crate::options::{IndentStyle, PrinterOptions};
use crate::printed::PrintedView;
use crate::printer::call_stack::{
    frames_left, pop_frame, top_kind, IndentView, PrintElementArgs, PrintIndentView, StackFrame,
    StackFrameKind,
};
use crate::printer::fits::{
    fits_content, fits_element, fits_entry, fits_text, lemma_fits_element_progress, measuring, Fits,
    FitsEnd, FitsView,
};
use crate::printer::indention::Indention;
use crate::printer::invalid::end_error;
use crate::printer::laws::widths::glyph_columns;
use crate::printer::machine::{fits_on_line, Machine};
use crate::printer::outcome::{
    lemma_element_progress, lemma_popped_remaining, measuring_flat, print_element, print_entry,
    print_entry_rest, print_queue, printed_document,
};
use crate::printer::queue::{entry_ends, next_is, top_element};
use crate::printer::state::{StateView, Stop};
use crate::printer::text::after_text;
use crate::printer::width::{columns, columns_given};
use crate::tag::{
    Align, Condition, DedentMode, Group, GroupId, GroupMode, LabelId, PrintMode, Tag, TagKind,
    VerbatimKind,
};
use crate::text_size::{add_sizes, byte_len, range_at, text_len, TextSize};
use vstd::prelude::*;
use vstd::std_specs::convert::FromSpec;

verus! {

/// Every part starts and ends with tags of the same kind, and no two kinds of parts share a tag.
pub proof fn lemma_tag_kinds(
    align: Align,
    dedent: DedentMode,
    group: Group,
    condition: Condition,
    id: GroupId,
    verbatim: VerbatimKind,
    label: LabelId,
)
    ensures
        Tag::StartIndent.starts() && Tag::StartIndent.marks() == TagKind::Indent,
        !Tag::EndIndent.starts() && Tag::EndIndent.marks() == TagKind::Indent,
        Tag::StartAlign(align).starts() && Tag::StartAlign(align).marks() == TagKind::Align,
        !Tag::EndAlign.starts() && Tag::EndAlign.marks() == TagKind::Align,
        Tag::StartDedent(dedent).starts() && Tag::StartDedent(dedent).marks() == TagKind::Dedent,
        !Tag::EndDedent(dedent).starts() && Tag::EndDedent(dedent).marks() == TagKind::Dedent,
        Tag::StartGroup(group).starts() && Tag::StartGroup(group).marks() == TagKind::Group,
        !Tag::EndGroup.starts() && Tag::EndGroup.marks() == TagKind::Group,
        Tag::StartConditionalContent(condition).starts(),
        Tag::StartConditionalContent(condition).marks() == TagKind::ConditionalContent,
        !Tag::EndConditionalContent.starts(),
        Tag::EndConditionalContent.marks() == TagKind::ConditionalContent,
        Tag::StartIndentIfGroupBreaks(id).starts(),
        Tag::StartIndentIfGroupBreaks(id).marks() == TagKind::IndentIfGroupBreaks,
        !Tag::EndIndentIfGroupBreaks(id).starts(),
        Tag::EndIndentIfGroupBreaks(id).marks() == TagKind::IndentIfGroupBreaks,
        Tag::StartFill.starts() && Tag::StartFill.marks() == TagKind::Fill,
        !Tag::EndFill.starts() && Tag::EndFill.marks() == TagKind::Fill,
        Tag::StartEntry.starts() && Tag::StartEntry.marks() == TagKind::Entry,
        !Tag::EndEntry.starts() && Tag::EndEntry.marks() == TagKind::Entry,
        Tag::StartLineSuffix.starts() && Tag::StartLineSuffix.marks() == TagKind::LineSuffix,
        !Tag::EndLineSuffix.starts() && Tag::EndLineSuffix.marks() == TagKind::LineSuffix,
        Tag::StartVerbatim(verbatim).starts(),
        Tag::StartVerbatim(verbatim).marks() == TagKind::Verbatim,
        !Tag::EndVerbatim.starts() && Tag::EndVerbatim.marks() == TagKind::Verbatim,
        Tag::StartLabelled(label).starts(),
        Tag::StartLabelled(label).marks() == TagKind::Labelled,
        !Tag::EndLabelled.starts() && Tag::EndLabelled.marks() == TagKind::Labelled,
{
}

/// The error for a missing end names the part whose end is missing and the innermost part that is
/// open. Outside of all parts the start is what is missing.
pub proof fn lemma_missing_end(kind: TagKind, open: TagKind)
    ensures
        end_error(kind, Some(open)) == PrintError::InvalidDocument(
            InvalidDocumentError::StartEndTagMismatch { start_kind: kind, end_kind: open },
        ),
        end_error(kind, None) == PrintError::InvalidDocument(
            InvalidDocumentError::StartTagMissing { kind },
        ),
{
}

/// What is left of the stack behind a failed attempt to end a part: the innermost part is gone, and
/// the frame for the whole document always stays.
pub proof fn lemma_stack_behind_mismatch(stack: Seq<StackFrame>, kind: TagKind)
    requires
        stack.len() > 0,
    ensures
        match stack.last().kind {
            StackFrameKind::Root => {
                &&& frames_left(stack) == stack
                &&& top_kind(stack) is None
                &&& pop_frame(stack, kind) == Err::<Seq<StackFrame>, _>(
                    PrintError::InvalidDocument(InvalidDocumentError::StartTagMissing { kind }),
                )
            },
            StackFrameKind::Tag(open) => {
                &&& frames_left(stack) == stack.drop_last()
                &&& top_kind(stack) == Some(open)
                &&& open == kind ==> pop_frame(stack, kind) == Ok::<_, PrintError>(
                    stack.drop_last(),
                )
                &&& open != kind ==> pop_frame(stack, kind) == Err::<Seq<StackFrame>, _>(
                    PrintError::InvalidDocument(
                        InvalidDocumentError::StartEndTagMismatch {
                            start_kind: open,
                            end_kind: kind,
                        },
                    ),
                )
            },
        },
{
}

/// Outside of all indents there is no indention, and there is nothing to go back to.
pub proof fn lemma_no_indention(indents: IndentView)
    requires
        indents.indentions.len() == 0,
    ensures
        indents.current() == Indention::Level(0),
        indents.popped() == indents,
        indents.dedented() == indents,
{
}

/// An indention is one level deeper than another, if that can be counted. With tabs an align becomes
/// a level of its own, and with spaces it stays.
pub proof fn lemma_deeper(level: u16, align: Align, align_count: u16)
    ensures
        Indention::Level(level).next_level(IndentStyle::Tab) == level + 1,
        Indention::Level(level).next_level(IndentStyle::Space) == level + 1,
        (Indention::Align { level, align, align_count }).next_level(IndentStyle::Tab) == level + 2,
        (Indention::Align { level, align, align_count }).next_level(IndentStyle::Space) == level
            + 1,
        level < u16::MAX ==> {
            &&& Indention::Level(level).incremented(IndentStyle::Tab) == Indention::Level(
                (level + 1) as u16,
            )
            &&& Indention::Level(level).incremented(IndentStyle::Space) == Indention::Level(
                (level + 1) as u16,
            )
            &&& (Indention::Align { level, align, align_count }).incremented(IndentStyle::Space)
                == (Indention::Align { level: (level + 1) as u16, align, align_count })
        },
        level + 2 <= u16::MAX ==> (Indention::Align { level, align, align_count }).incremented(
            IndentStyle::Tab,
        ) == Indention::Level((level + 2) as u16),
        Indention::Level(level).has_room_to_align(),
        (Indention::Align { level, align, align_count }).has_room_to_align() == (level < u16::MAX
            && align_count < u16::MAX),
{
}

/// Offsets are counted in bytes. A length and an end are known as long as they can be counted.
pub proof fn lemma_sizes(text: Seq<char>, left: TextSize, right: TextSize)
    ensures
        byte_len(text) == vstd::utf8::encode_utf8(text).len(),
        byte_len(text) <= u32::MAX ==> (text_len(text) matches Some(size) && size.raw == byte_len(
            text,
        )),
        byte_len(text) > u32::MAX ==> text_len(text) is None,
        left.raw + right.raw <= u32::MAX ==> (add_sizes(left, right) matches Some(size) && size.raw
            == left.raw + right.raw),
        left.raw + right.raw > u32::MAX ==> add_sizes(left, right) is None && range_at(
            left,
            right,
        ) is None,
        left.raw + right.raw <= u32::MAX ==> (range_at(left, right) matches Some(range)
            && range.start == left && range.end.raw == left.raw + right.raw),
{
}

/// A character takes the columns that it is displayed in. A tab takes those of a level of indention,
/// and a character that is not displayed takes none.
pub proof fn lemma_columns_of_width(
    options: PrinterOptions,
    character: char,
    displayed: Option<usize>,
)
    ensures
        columns_given(options, character, displayed) == (if character == '\t' {
            options.indent_width.columns as int
        } else {
            match displayed {
                Some(width) => width as int,
                None => 0,
            }
        }),
        columns(options, character) == glyph_columns(options, character),
{
}

/// What comes next is the first element, or what comes next in it if it is shared content.
pub proof fn lemma_what_comes_next(elements: Seq<FormatElement>, tag: Tag)
    ensures
        elements.len() == 0 ==> !next_is(elements, tag) && top_element(elements) is None,
        elements.len() > 0 && !(elements[0] is Interned) ==> {
            &&& top_element(elements) == Some(elements[0])
            &&& next_is(elements, tag) == (elements[0] == FormatElement::Tag(tag))
        },
        elements.len() > 0 ==> (elements[0] matches FormatElement::Interned(content) ==> {
            &&& top_element(elements) == top_element(content@)
            &&& next_is(elements, tag) == next_is(content@, tag)
        }),
{
}

/// Measuring starts where the printer is: with the line, what is pending on it and what is queued.
pub proof fn lemma_measuring_starts(machine: Machine, must_be_flat: bool)
    ensures
        ({
            let view = FitsView {
                pending_indent: machine.state.pending_indent,
                pending_space: machine.state.pending_space,
                has_line_suffix: machine.state.line_suffixes.len() > 0,
                line_width: machine.state.line_width,
                queue: machine.queue,
                stack: machine.stack,
                indents: machine.indents.stack,
                group_modes: machine.state.group_modes,
                must_be_flat,
            };
            &&& measuring(
                machine.state,
                machine.stack,
                machine.indents,
                machine.queue,
                must_be_flat,
            ) == view
            &&& measuring_flat(machine) == (FitsView { must_be_flat: true, ..view })
        }),
{
}

/// Whether what is queued fits is measured up to the next line break or the end of the document, with
/// groups that may be expanded. Only the modes of the groups are kept.
pub proof fn lemma_what_fits_on_line(options: PrinterOptions, machine: Machine)
    ensures
        match fits_content(
            options,
            (FitsView {
                pending_indent: machine.state.pending_indent,
                pending_space: machine.state.pending_space,
                has_line_suffix: machine.state.line_suffixes.len() > 0,
                line_width: machine.state.line_width,
                queue: machine.queue,
                stack: machine.stack,
                indents: machine.indents.stack,
                group_modes: machine.state.group_modes,
                must_be_flat: false,
            }),
            FitsEnd::Document,
        ) {
            Ok((fits, after, _)) => fits_on_line(options, machine) == Ok::<
                _,
                Stop<Map<GroupId, PrintMode>>,
            >((fits, after.group_modes)),
            Err(stop) => fits_on_line(options, machine) matches Err(other) && other.halt()
                == stop.halt(),
        },
{
}

/// An entry is measured up to its own end: entries inside of it end first.
pub proof fn lemma_entry_end_measured(
    options: PrinterOptions,
    view: FitsView,
    depth: usize,
    after: FitsView,
)
    requires
        view.queue.len() > 0,
        depth < usize::MAX,
        depth > 0 || view.queue[0] != FormatElement::Tag(Tag::EndEntry),
        fits_element(
            options,
            (FitsView { queue: view.queue.drop_first(), ..view }),
            view.queue[0],
        ) == Ok::<(Fits, FitsView), Stop<FitsView>>((Fits::Maybe, after)),
    ensures
        fits_content(options, view, FitsEnd::Entry { depth }) == (if view.queue[0]
            == FormatElement::Tag(Tag::StartEntry) {
            fits_content(options, after, (FitsEnd::Entry { depth: (depth + 1) as usize }))
        } else if view.queue[0] != FormatElement::Tag(Tag::EndEntry) {
            fits_content(options, after, (FitsEnd::Entry { depth }))
        } else if depth > 1 {
            fits_content(options, after, (FitsEnd::Entry { depth: (depth - 1) as usize }))
        } else {
            Ok((true, after, FitsEnd::Done))
        }),
{
    lemma_fits_element_progress(options, view);
}

/// An entry is measured inside of a fill in the given mode. Behind its end the fill is left. Where
/// measuring stops early, the end must still come.
pub proof fn lemma_entry_measured(
    options: PrinterOptions,
    view: FitsView,
    mode: PrintMode,
    fits: bool,
    after: FitsView,
    end: FitsEnd,
)
    requires
        next_is(view.queue, Tag::StartEntry),
        fits_content(
            options,
            (FitsView {
                stack: view.stack.push(
                    StackFrame {
                        kind: StackFrameKind::Tag(TagKind::Fill),
                        args: PrintElementArgs { mode },
                    },
                ),
                ..view
            }),
            FitsEnd::Entry { depth: 0 },
        ) == Ok::<_, Stop<(FitsView, FitsEnd)>>((fits, after, end)),
    ensures
        match end {
            FitsEnd::Done => after.stack.len() > 0 && after.stack.last().kind
                == StackFrameKind::Tag(TagKind::Fill) ==> fits_entry(options, view, mode) == Ok::<
                (bool, FitsView),
                Stop<FitsView>,
            >((fits, (FitsView { stack: after.stack.drop_last(), ..after }))),
            FitsEnd::Entry { depth } => match entry_ends(after.queue, depth as nat) {
                Some(true) => fits_entry(options, view, mode) == Ok::<
                    (bool, FitsView),
                    Stop<FitsView>,
                >((fits, after)),
                Some(false) => fits_entry(options, view, mode) matches Err(Stop::Error(_, _)),
                None => fits_entry(options, view, mode) == Err::<
                    (bool, FitsView),
                    Stop<FitsView>,
                >(Stop::Unsupported),
            },
            FitsEnd::Document => true,
        },
{
}

/// Without the end of an entry among the elements, no entry ends.
pub proof fn lemma_no_end_among(elements: Seq<FormatElement>, depth: nat)
    requires
        forall|i: int|
            0 <= i < elements.len() ==> !(#[trigger] elements[i] is Interned) && elements[i]
                != FormatElement::Tag(Tag::EndEntry),
    ensures
        entry_ends(elements, depth) != Some(true),
    decreases elements.len(),
{
    if elements.len() > 0 {
        let rest = elements.drop_first();
        assert(!(elements[0] is Interned));
        assert forall|i: int| 0 <= i < rest.len() implies !(#[trigger] rest[i] is Interned)
            && rest[i] != FormatElement::Tag(Tag::EndEntry) by {
            assert(!(elements[i + 1] is Interned));
        }
        if elements[0] == FormatElement::Tag(Tag::StartEntry) {
            lemma_no_end_among(rest, depth + 1);
        } else {
            lemma_no_end_among(rest, depth);
        }
    }
}

/// The end of an entry is found in shared content like anywhere else. An entry that starts before it
/// ends first.
pub proof fn lemma_end_is_found(element: FormatElement, rest: Seq<FormatElement>, depth: nat)
    requires
        depth < usize::MAX,
    ensures
        entry_ends(seq![element] + rest, depth) == match element {
            FormatElement::Interned(content) => entry_ends(content@ + rest, depth),
            FormatElement::Tag(Tag::StartEntry) => entry_ends(rest, depth + 1),
            FormatElement::Tag(Tag::EndEntry) => if depth > 1 {
                entry_ends(rest, (depth - 1) as nat)
            } else {
                Some(true)
            },
            _ => entry_ends(rest, depth),
        },
        entry_ends(Seq::empty(), depth) == Some(false),
{
    assert((seq![element] + rest).drop_first() =~= rest);
}

/// An entry is printed inside of a part of its own in the given mode, element by element, up to its
/// own end.
pub proof fn lemma_entry_printed(
    options: PrinterOptions,
    machine: Machine,
    args: PrintElementArgs,
)
    requires
        machine.queue.len() > 0,
        machine.queue[0] == FormatElement::Tag(Tag::StartEntry),
    ensures
        print_entry(options, machine, args) == print_entry_rest(
            options,
            (Machine {
                stack: machine.stack.push(
                    StackFrame { kind: StackFrameKind::Tag(TagKind::Entry), args },
                ),
                queue: machine.queue.drop_first(),
                ..machine
            }),
            args,
            1,
        ),
{
    lemma_popped_remaining(machine);
    assert(machine.popped().entering(TagKind::Entry, args) =~= (Machine {
        stack: machine.stack.push(
            StackFrame { kind: StackFrameKind::Tag(TagKind::Entry), args },
        ),
        queue: machine.queue.drop_first(),
        ..machine
    }));
}

/// Inside of an entry, and in shared content that starts with one, the next element is printed like
/// anywhere else. The end of the entry leads out of it, and an entry that does not end is an error.
pub proof fn lemma_entry_goes_on(
    options: PrinterOptions,
    machine: Machine,
    args: PrintElementArgs,
    depth: nat,
)
    requires
        depth < i32::MAX,
        depth > 0 || (machine.queue.len() > 0 && machine.queue[0] is Interned),
    ensures
        machine.queue.len() == 0 ==> print_entry_rest(options, machine, args, depth) is Err,
        machine.queue.len() > 0 ==> {
            let popped = Machine { queue: machine.queue.drop_first(), ..machine };
            let element = machine.queue[0];
            let next_depth = if element == FormatElement::Tag(Tag::StartEntry) {
                depth + 1
            } else if element == FormatElement::Tag(Tag::EndEntry) {
                (depth - 1) as nat
            } else {
                depth
            };
            print_entry_rest(options, machine, args, depth) == match print_element(
                options,
                popped,
                element,
            ) {
                Err(stop) => Err(stop),
                Ok(after) => if depth > 0 && next_depth == 0 {
                    Ok(after)
                } else {
                    print_entry_rest(options, after, args, next_depth)
                },
            }
        },
{
    if machine.queue.len() > 0 {
        lemma_popped_remaining(machine);
        lemma_element_progress(options, machine.popped(), machine.queue[0]);
    }
}

/// A text is printed as it is, with the position that it comes from if it has one.
pub proof fn lemma_text_elements(
    options: PrinterOptions,
    machine: Machine,
    element: FormatElement,
    text: Seq<char>,
    source_position: Option<TextSize>,
)
    requires
        match element {
            FormatElement::StaticText { text: own } => own@ == text && source_position is None,
            FormatElement::DynamicText { text: own, source_position: position } => own@ == text
                && source_position == Some(position),
            FormatElement::LocatedTokenText { slice: own, source_position: position } => own@
                == text && source_position == Some(position),
            _ => false,
        },
    ensures
        print_element(options, machine, element) == (match after_text(
            options,
            machine.state,
            text,
            source_position,
        ) {
            Ok(state) => Ok::<Machine, Stop<Machine>>((Machine { state, ..machine })),
            Err(_) => Err(Stop::Unsupported),
        }),
        forall|view: FitsView|
            #![trigger fits_element(options, view, element)]
            fits_element(options, view, element) == fits_text(options, view, text),
{
}

/// A group that may be flat is measured inside of a group in flat mode, as if it was printed in flat
/// mode. It is printed in flat mode if it fits up to the next line break, and in expanded mode
/// otherwise. That mode is recorded, and nothing but the modes of the groups changes.
pub proof fn lemma_group_measured_first(options: PrinterOptions, machine: Machine, group: Group)
    requires
        group.mode == GroupMode::Flat,
        !(machine.stack.last().args.mode == PrintMode::Flat && machine.state.measured_group_fits),
    ensures
        ({
            let view = FitsView {
                pending_indent: machine.state.pending_indent,
                pending_space: machine.state.pending_space,
                has_line_suffix: machine.state.line_suffixes.len() > 0,
                line_width: machine.state.line_width,
                queue: machine.queue,
                stack: machine.stack.push(
                    StackFrame {
                        kind: StackFrameKind::Tag(TagKind::Group),
                        args: PrintElementArgs { mode: PrintMode::Flat },
                    },
                ),
                indents: machine.indents.stack,
                group_modes: match group.id {
                    Some(id) => machine.state.group_modes.insert(id, PrintMode::Flat),
                    None => machine.state.group_modes,
                },
                must_be_flat: false,
            };
            let element = FormatElement::Tag(Tag::StartGroup(group));
            match fits_content(options, view, FitsEnd::Document) {
                Err(stop) => print_element(options, machine, element) matches Err(other)
                    && other.halt() == stop.halt(),
                Ok((fits, after, _)) => {
                    let mode = if fits {
                        PrintMode::Flat
                    } else {
                        PrintMode::Expanded
                    };
                    print_element(options, machine, element) == Ok::<Machine, Stop<Machine>>(
                        (Machine {
                            state: StateView {
                                measured_group_fits: true,
                                group_modes: match group.id {
                                    Some(id) => after.group_modes.insert(id, mode),
                                    None => after.group_modes,
                                },
                                ..machine.state
                            },
                            stack: machine.stack.push(
                                StackFrame {
                                    kind: StackFrameKind::Tag(TagKind::Group),
                                    args: PrintElementArgs { mode },
                                },
                            ),
                            ..machine
                        }),
                    )
                },
            }
        }),
{
}

/// Measuring follows the indention like printing does: inside of an indent, an align or a dedent the
/// indention is the same as where it is printed.
pub proof fn lemma_indention_measured(
    options: PrinterOptions,
    machine: Machine,
    view: FitsView,
    tag: Tag,
)
    requires
        tag is StartIndent || tag is StartAlign || tag is StartDedent,
        view.stack == machine.stack,
        view.indents == machine.indents.stack,
    ensures
        match print_element(options, machine, FormatElement::Tag(tag)) {
            Ok(inside) => fits_element(options, view, FormatElement::Tag(tag)) == Ok::<
                (Fits, FitsView),
                Stop<FitsView>,
            >(
                (
                    Fits::Maybe,
                    (FitsView { stack: inside.stack, indents: inside.indents.stack, ..view }),
                ),
            ),
            Err(_) => fits_element(options, view, FormatElement::Tag(tag)) is Err,
        },
{
}

/// At the end of an indent, an align or a dedent by a level, measuring goes back to the indention that
/// printing goes back to.
pub proof fn lemma_indention_end_measured(
    options: PrinterOptions,
    machine: Machine,
    view: FitsView,
    tag: Tag,
)
    requires
        tag is EndIndent || tag is EndAlign || tag == Tag::EndDedent(DedentMode::Level),
        view.stack == machine.stack,
        view.indents == machine.indents.stack,
    ensures
        match print_element(options, machine, FormatElement::Tag(tag)) {
            Ok(outside) => fits_element(options, view, FormatElement::Tag(tag)) == Ok::<
                (Fits, FitsView),
                Stop<FitsView>,
            >(
                (
                    Fits::Maybe,
                    (FitsView { stack: outside.stack, indents: outside.indents.stack, ..view }),
                ),
            ),
            Err(stop) => fits_element(options, view, FormatElement::Tag(tag)) matches Err(other)
                && other.halt() == stop.halt(),
        },
{
}

/// Measuring stops at the first element that fits for sure, that does not fit or that is an error,
/// wherever it was meant to end. Where nothing is left, everything fits.
pub proof fn lemma_measuring_stops(options: PrinterOptions, view: FitsView, end: FitsEnd)
    ensures
        view.queue.len() == 0 ==> fits_content(options, view, end) == Ok::<
            _,
            Stop<(FitsView, FitsEnd)>,
        >((true, view, end)),
        view.queue.len() > 0 ==> match fits_element(
            options,
            (FitsView { queue: view.queue.drop_first(), ..view }),
            view.queue[0],
        ) {
            Ok((Fits::Yes, after)) => fits_content(options, view, end) == Ok::<
                _,
                Stop<(FitsView, FitsEnd)>,
            >((true, after, end)),
            Ok((Fits::No, after)) => fits_content(options, view, end) == Ok::<
                _,
                Stop<(FitsView, FitsEnd)>,
            >((false, after, end)),
            Ok((Fits::Maybe, _)) => true,
            Err(stop) => fits_content(options, view, end) matches Err(other) && other.halt()
                == stop.halt(),
        },
{
}

/// An answer that is known is the same however it is given.
pub proof fn lemma_known_answers()
    ensures
        <Fits as FromSpec<bool>>::from_spec(true) == Fits::Yes,
        <Fits as FromSpec<bool>>::from_spec(false) == Fits::No,
{
}

/// Wherever the printer is, a document is printed outside of all parts, in expanded mode and with the
/// given indention. All that was printed before and behind makes up the code.
pub proof fn lemma_document_goes_on(
    options: PrinterOptions,
    state: StateView,
    document: Seq<FormatElement>,
    indent: u16,
)
    ensures
        printed_document(options, state, document, indent) == match print_queue(
            options,
            (Machine {
                state,
                stack: seq![
                    StackFrame {
                        kind: StackFrameKind::Root,
                        args: PrintElementArgs { mode: PrintMode::Expanded },
                    },
                ],
                indents: PrintIndentView {
                    stack: IndentView {
                        indentions: seq![Indention::Level(indent)],
                        history: Seq::empty(),
                    },
                    suffixes: Seq::empty(),
                },
                queue: document,
            }),
        ) {
            Err(stop) => Err(stop.halt()),
            Ok(end) => Ok(
                (PrintedView {
                    code: end.state.buffer,
                    range: None,
                    sourcemap: end.state.source_markers,
                    verbatim_ranges: end.state.verbatim_markers,
                }),
            ),
        },
{
}

} // verus!
