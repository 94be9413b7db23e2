//! What printing a single element does.

use crate::format_element::{
    element_size, element_suffixes, group_counts, lemma_concat_counts, lemma_first_counts,
    total_size, total_suffixes, FormatElement, LineMode,
};
use crate::options::PrinterOptions;
use crate::printer::call_stack::{
    frames_left, pop_frame, push_frame, top_args, IndentView, PrintElementArgs, PrintIndentView,
    StackFrame,
};
use crate::printer::fits::{fits_content, measuring, FitsEnd};
use crate::printer::indention::Indention;
use crate::printer::line_suffixes::{suffix_entries, SuffixEntry};
use crate::printer::queue::{lemma_split_content, split_content};
use crate::printer::state::{Halt, StateView, Stop};
use crate::printer::text::{
    after_indent, after_marker, after_repeated, after_space, after_str, after_text, indent_char,
};
use crate::tag::{DedentMode, Group, GroupId, GroupMode, PrintMode, Tag, TagKind, VerbatimKind};
use crate::text_size::{byte_len, range_at, TextSize};
use vstd::prelude::*;

verus! {

/// All that printing reads and changes.
#[verifier::ext_equal]
pub struct Machine {
    pub state: StateView,
    /// The parts of the document that are being printed, the innermost last.
    pub stack: Seq<StackFrame>,
    pub indents: PrintIndentView,
    /// The elements that are still to be printed.
    pub queue: Seq<FormatElement>,
}

/// What printing leads to.
pub type Outcome = Result<Machine, Stop<Machine>>;

/// How much is left to print. What is left gets less with every element.
#[verifier::ext_equal]
pub struct Remaining {
    /// The line suffixes that are still to be taken from the queue.
    pub suffixes: nat,
    /// Whether there are pending line suffixes.
    pub pending: nat,
    /// The elements in the queue.
    pub size: nat,
}

impl Remaining {
    /// Whether this is less than `other`.
    pub open spec fn less(self, other: Remaining) -> bool {
        ||| self.suffixes < other.suffixes
        ||| self.suffixes == other.suffixes && self.pending < other.pending
        ||| self.suffixes == other.suffixes && self.pending == other.pending && self.size
            < other.size
    }

    /// Whether this is no more than `other`.
    pub open spec fn at_most(self, other: Remaining) -> bool {
        self == other || self.less(other)
    }
}

/// The line suffixes that start in pending ones.
pub open spec fn pending_suffixes(entries: Seq<SuffixEntry>) -> nat
    decreases entries.len(),
{
    if entries.len() == 0 {
        0
    } else {
        pending_suffixes(entries.drop_last()) + match entries.last() {
            SuffixEntry::Suffix(element) => element_suffixes(element),
            SuffixEntry::Args(_) => 0,
        }
    }
}

impl Machine {
    /// What is left to print.
    pub open spec fn remaining(self) -> Remaining {
        Remaining {
            suffixes: total_suffixes(self.queue) + pending_suffixes(self.state.line_suffixes),
            pending: if self.state.line_suffixes.len() > 0 {
                1
            } else {
                0
            },
            size: total_size(self.queue),
        }
    }

    /// What is left to print with another element in front.
    pub open spec fn remaining_with(self, element: FormatElement) -> Remaining {
        Remaining {
            suffixes: self.remaining().suffixes + element_suffixes(element),
            pending: self.remaining().pending,
            size: self.remaining().size + element_size(element),
        }
    }

    /// The mode of the innermost part.
    pub open spec fn mode(self) -> PrintMode {
        top_args(self.stack).mode
    }

    /// Another part starts.
    pub open spec fn entering(self, kind: TagKind, args: PrintElementArgs) -> Machine {
        Machine { stack: push_frame(self.stack, kind, args), ..self }
    }

    /// The innermost part ends.
    pub open spec fn leaving(self, kind: TagKind) -> Outcome {
        match pop_frame(self.stack, kind) {
            Ok(stack) => Ok(Machine { stack, ..self }),
            Err(error) => Err(
                Stop::Error(error, Machine { stack: frames_left(self.stack), ..self }),
            ),
        }
    }

    /// Other elements come first.
    pub open spec fn queueing(self, elements: Seq<FormatElement>) -> Machine {
        Machine { queue: elements + self.queue, ..self }
    }

    /// The current indentions are others.
    pub open spec fn indented(self, stack: IndentView) -> Machine {
        Machine { indents: PrintIndentView { stack, ..self.indents }, ..self }
    }

    /// The groups have other modes.
    pub open spec fn with_group_modes(self, group_modes: Map<GroupId, PrintMode>) -> Machine {
        Machine { state: StateView { group_modes, ..self.state }, ..self }
    }

    /// It is known whether the current group fits.
    pub open spec fn with_measured(self, measured_group_fits: bool) -> Machine {
        Machine { state: StateView { measured_group_fits, ..self.state }, ..self }
    }

    /// The first element of the queue is taken.
    pub open spec fn popped(self) -> Machine {
        Machine { queue: self.queue.drop_first(), ..self }
    }
}

/// The machine with the state that printing leads to.
pub open spec fn with_state(machine: Machine, printed: Result<StateView, Halt>) -> Outcome {
    match printed {
        Ok(state) => Ok(Machine { state, ..machine }),
        Err(_) => Err(Stop::Unsupported),
    }
}

/// The stack and the queue after the entries of the pending line suffixes were added, the last
/// entry first.
pub open spec fn entries_queued(
    entries: Seq<SuffixEntry>,
    stack: Seq<StackFrame>,
    queue: Seq<FormatElement>,
) -> (Seq<StackFrame>, Seq<FormatElement>)
    decreases entries.len(),
{
    if entries.len() == 0 {
        (stack, queue)
    } else {
        match entries.last() {
            SuffixEntry::Suffix(element) => entries_queued(
                entries.drop_last(),
                stack,
                seq![element] + queue,
            ),
            SuffixEntry::Args(args) => entries_queued(
                entries.drop_last(),
                push_frame(stack, TagKind::LineSuffix, args),
                seq![FormatElement::Tag(Tag::EndLineSuffix)] + queue,
            ),
        }
    }
}

/// Queues the pending line suffixes, to be printed before the rest of the queue. The line break
/// that causes this comes behind them.
pub open spec fn flushed(machine: Machine, line_break: Option<FormatElement>) -> Machine {
    let entries = machine.state.line_suffixes;
    if entries.len() == 0 {
        machine
    } else {
        let behind = match line_break {
            Some(element) => seq![element] + machine.queue,
            None => machine.queue,
        };
        let (stack, queue) = entries_queued(entries, machine.stack, behind);
        Machine {
            state: StateView { line_suffixes: Seq::empty(), ..machine.state },
            stack,
            indents: machine.indents.flushed(),
            queue,
        }
    }
}

/// The state after the characters of a line break: nothing if the line is empty already, and an
/// empty line at most once.
pub open spec fn after_break(options: PrinterOptions, state: StateView, line_mode: LineMode) -> Result<
    StateView,
    Halt,
> {
    let ended = if state.line_width > 0 {
        after_str(options, state, seq!['\n'])
    } else {
        Ok(state)
    };
    match ended {
        Err(halt) => Err(halt),
        Ok(fresh) => if line_mode == LineMode::Empty && !fresh.has_empty_line {
            match after_str(options, fresh, seq!['\n']) {
                Err(halt) => Err(halt),
                Ok(empty) => Ok(StateView { has_empty_line: true, ..empty }),
            }
        } else {
            Ok(fresh)
        },
    }
}

/// Prints a line break.
pub open spec fn print_line(options: PrinterOptions, machine: Machine, line_mode: LineMode) -> Outcome {
    let flat = machine.mode() == PrintMode::Flat;
    if flat && (line_mode == LineMode::Soft || line_mode == LineMode::SoftOrSpace) {
        let pending_space = machine.state.pending_space || (line_mode == LineMode::SoftOrSpace
            && machine.state.line_width > 0);
        Ok(Machine { state: StateView { pending_space, ..machine.state }, ..machine })
    } else {
        let start = if flat {
            machine.with_measured(false)
        } else {
            machine
        };
        if start.state.line_suffixes.len() > 0 {
            Ok(flushed(start, Some(FormatElement::Line(line_mode))))
        } else {
            match after_break(options, start.state, line_mode) {
                Err(_) => Err(Stop::Unsupported),
                Ok(state) => Ok(
                    Machine {
                        state: StateView {
                            pending_space: false,
                            pending_indent: start.indents.stack.current(),
                            ..state
                        },
                        ..start
                    },
                ),
            }
        }
    }
}

/// Whether what is queued fits on the line up to the next line break, and the machine after
/// measuring. Measuring changes only the modes of the groups.
pub open spec fn fits_on_line(options: PrinterOptions, machine: Machine) -> Result<
    (bool, Map<GroupId, PrintMode>),
    Stop<Map<GroupId, PrintMode>>,
> {
    let view = measuring(
        machine.state,
        machine.stack,
        machine.indents,
        machine.queue,
        false,
    );
    match fits_content(options, view, FitsEnd::Document) {
        Err(stop) => Err(stop.with(stop.left().0.group_modes)),
        Ok((fits, after, _)) => Ok((fits, after.group_modes)),
    }
}

/// The modes of the groups, with that of a group that may have no id.
pub open spec fn with_group_mode(
    group_modes: Map<GroupId, PrintMode>,
    id: Option<GroupId>,
    mode: PrintMode,
) -> Map<GroupId, PrintMode> {
    match id {
        Some(id) => group_modes.insert(id, mode),
        None => group_modes,
    }
}

/// The mode to print a group in, and the machine after finding out. The group is printed flat if
/// it fits on the line.
pub open spec fn group_layout(options: PrinterOptions, machine: Machine, group: Group) -> Result<
    (PrintMode, Machine),
    Stop<Machine>,
> {
    if group.mode != GroupMode::Flat {
        Ok((PrintMode::Expanded, machine))
    } else if machine.mode() == PrintMode::Flat && machine.state.measured_group_fits {
        Ok((PrintMode::Flat, machine))
    } else {
        let start = machine.with_measured(true).with_group_modes(
            with_group_mode(machine.state.group_modes, group.id, PrintMode::Flat),
        );
        let inside = start.entering(
            TagKind::Group,
            top_args(machine.stack).in_mode(PrintMode::Flat),
        );
        match fits_on_line(options, inside) {
            Err(stop) => Err(stop.with(inside.with_group_modes(stop.left()))),
            Ok((fits, group_modes)) => Ok(
                (
                    if fits {
                        PrintMode::Flat
                    } else {
                        PrintMode::Expanded
                    },
                    start.with_group_modes(group_modes),
                ),
            ),
        }
    }
}

/// Starts a group.
pub open spec fn start_group(options: PrinterOptions, machine: Machine, group: Group) -> Outcome {
    match group_layout(options, machine, group) {
        Err(stop) => Err(stop),
        Ok((mode, after)) => Ok(
            after.with_group_modes(
                with_group_mode(after.state.group_modes, group.id, mode),
            ).entering(TagKind::Group, top_args(machine.stack).in_mode(mode)),
        ),
    }
}

/// The machine with one more level of indention.
pub open spec fn indented_once(options: PrinterOptions, machine: Machine) -> Outcome {
    let stack = machine.indents.stack;
    if stack.current().next_level(options.indent_style) > u16::MAX {
        Err(Stop::Unsupported)
    } else {
        Ok(machine.indented(stack.pushed(stack.current().incremented(options.indent_style))))
    }
}

/// Starts a line suffix: its content waits for the next line break.
pub open spec fn start_line_suffix(machine: Machine) -> Outcome {
    match split_content(machine.queue, TagKind::LineSuffix, 1) {
        None => Err(Stop::Unsupported),
        Some((content, rest)) => Ok(
            Machine {
                state: StateView {
                    line_suffixes: machine.state.line_suffixes + suffix_entries(
                        content,
                        top_args(machine.stack),
                    ),
                    ..machine.state
                },
                indents: PrintIndentView {
                    suffixes: machine.indents.suffixes.push(machine.indents.stack.current()),
                    ..machine.indents
                },
                queue: rest,
                ..machine
            },
        ),
    }
}

/// Starts content that is only printed if a group is printed in the given mode.
pub open spec fn start_conditional(machine: Machine, mode: PrintMode, group_mode: PrintMode) -> Outcome {
    if mode == group_mode {
        Ok(machine.entering(TagKind::ConditionalContent, top_args(machine.stack)))
    } else {
        match split_content(machine.queue, TagKind::ConditionalContent, 1) {
            None => Err(Stop::Unsupported),
            Some((_, rest)) => Ok(Machine { queue: rest, ..machine }),
        }
    }
}

/// Starts verbatim content: its range in the output is recorded.
pub open spec fn start_verbatim(machine: Machine, kind: VerbatimKind) -> Outcome {
    let inside = machine.entering(TagKind::Verbatim, top_args(machine.stack));
    match kind {
        VerbatimKind::Verbatim { length } => match range_at(
            TextSize { raw: byte_len(machine.state.buffer) as u32 },
            length,
        ) {
            None => Err(Stop::Unsupported),
            Some(range) => Ok(
                Machine {
                    state: StateView {
                        verbatim_markers: machine.state.verbatim_markers.push(range),
                        ..machine.state
                    },
                    ..inside
                },
            ),
        },
        _ => Ok(inside),
    }
}

/// Prints a start tag other than that of a fill.
pub open spec fn print_start(options: PrinterOptions, machine: Machine, tag: Tag) -> Outcome {
    let args = top_args(machine.stack);
    let indents = machine.indents.stack;
    match tag {
        Tag::StartGroup(group) => start_group(options, machine, group),
        Tag::StartIndent => match indented_once(options, machine) {
            Err(stop) => Err(stop),
            Ok(indented) => Ok(indented.entering(TagKind::Indent, args)),
        },
        Tag::StartDedent(DedentMode::Level) => Ok(
            machine.indented(indents.dedented()).entering(TagKind::Dedent, args),
        ),
        Tag::StartDedent(DedentMode::Root) => Ok(
            machine.indented(indents.pushed(Indention::Level(0))).entering(TagKind::Dedent, args),
        ),
        Tag::StartAlign(align) => if !indents.current().has_room_to_align() {
            Err(Stop::Unsupported)
        } else {
            Ok(
                machine.indented(indents.pushed(indents.current().aligned(align))).entering(
                    TagKind::Align,
                    args,
                ),
            )
        },
        Tag::StartConditionalContent(condition) => match condition.group_id {
            None => start_conditional(machine, condition.mode, args.mode),
            Some(id) => if machine.state.group_modes.contains_key(id) {
                start_conditional(machine, condition.mode, machine.state.group_modes[id])
            } else {
                Err(Stop::Unsupported)
            },
        },
        Tag::StartIndentIfGroupBreaks(id) => if !machine.state.group_modes.contains_key(id) {
            Err(Stop::Unsupported)
        } else if machine.state.group_modes[id] == PrintMode::Expanded {
            match indented_once(options, machine) {
                Err(stop) => Err(stop),
                Ok(indented) => Ok(indented.entering(TagKind::IndentIfGroupBreaks, args)),
            }
        } else {
            Ok(machine.entering(TagKind::IndentIfGroupBreaks, args))
        },
        Tag::StartLineSuffix => start_line_suffix(machine),
        Tag::StartVerbatim(kind) => start_verbatim(machine, kind),
        _ => Ok(machine.entering(tag.marks(), args)),
    }
}

/// Prints an end tag.
pub open spec fn print_end(machine: Machine, tag: Tag) -> Outcome {
    let indents = machine.indents.stack;
    match tag {
        Tag::EndIndentIfGroupBreaks(id) => if !machine.state.group_modes.contains_key(id) {
            Err(Stop::Unsupported)
        } else if machine.state.group_modes[id] == PrintMode::Expanded {
            machine.indented(indents.popped()).leaving(TagKind::IndentIfGroupBreaks)
        } else {
            machine.leaving(TagKind::IndentIfGroupBreaks)
        },
        Tag::EndIndent | Tag::EndAlign | Tag::EndLineSuffix => match machine.leaving(tag.marks()) {
            Err(stop) => Err(stop),
            Ok(after) => Ok(after.indented(indents.popped())),
        },
        Tag::EndDedent(DedentMode::Root) => machine.indented(indents.popped()).leaving(
            TagKind::Dedent,
        ),
        Tag::EndDedent(DedentMode::Level) => machine.indented(indents.restored()).leaving(
            TagKind::Dedent,
        ),
        _ => machine.leaving(tag.marks()),
    }
}

/// Whether printing the element comes down to printing entries.
pub open spec fn has_entries(element: FormatElement) -> bool {
    element is BestFitting || element == FormatElement::Tag(Tag::StartFill)
}

/// Prints an element that has no entries.
pub open spec fn print_plain(
    options: PrinterOptions,
    machine: Machine,
    element: FormatElement,
) -> Outcome {
    match element {
        FormatElement::Space | FormatElement::HardSpace => Ok(
            if machine.state.line_width > 0 {
                Machine { state: StateView { pending_space: true, ..machine.state }, ..machine }
            } else {
                machine
            },
        ),
        FormatElement::StaticText { text } => with_state(
            machine,
            after_text(options, machine.state, text@, None),
        ),
        FormatElement::DynamicText { text, source_position } => with_state(
            machine,
            after_text(options, machine.state, text@, Some(source_position)),
        ),
        FormatElement::LocatedTokenText { slice, source_position } => with_state(
            machine,
            after_text(options, machine.state, slice@, Some(source_position)),
        ),
        FormatElement::Line(line_mode) => print_line(options, machine, line_mode),
        FormatElement::LineSuffixBoundary => Ok(
            flushed(machine, Some(FormatElement::Line(LineMode::Hard))),
        ),
        FormatElement::Interned(content) => Ok(machine.queueing(content@)),
        FormatElement::Tag(tag) => if tag.starts() {
            print_start(options, machine, tag)
        } else {
            print_end(machine, tag)
        },
        FormatElement::ExpandParent | FormatElement::BestFitting(_) => Ok(machine),
    }
}

/// Text is printed without a change to the pending line suffixes.
pub proof fn lemma_str_keeps_suffixes(options: PrinterOptions, state: StateView, text: Seq<char>)
    ensures
        after_str(options, state, text) matches Ok(after) ==> after.line_suffixes
            == state.line_suffixes,
    decreases text.len(),
{
    if text.len() > 0 {
        lemma_str_keeps_suffixes(options, state, text.drop_last());
    }
}

proof fn lemma_repeated_keeps_suffixes(
    options: PrinterOptions,
    state: StateView,
    character: char,
    count: nat,
)
    ensures
        after_repeated(options, state, character, count) matches Ok(after)
            ==> after.line_suffixes == state.line_suffixes,
    decreases count,
{
    if count > 0 {
        lemma_repeated_keeps_suffixes(options, state, character, (count - 1) as nat);
    }
}

/// A text is printed without a change to the pending line suffixes.
pub proof fn lemma_text_keeps_suffixes(
    options: PrinterOptions,
    state: StateView,
    text: Seq<char>,
    source_position: Option<TextSize>,
)
    ensures
        after_text(options, state, text, source_position) matches Ok(after) ==> after.line_suffixes
            == state.line_suffixes,
{
    let (character, per_level) = indent_char(options);
    let start = StateView { pending_indent: Indention::Level(0), ..state };
    let count = state.pending_indent.levels() as nat * per_level;
    lemma_repeated_keeps_suffixes(options, start, character, count);
    if let Ok(indented) = after_repeated(options, start, character, count) {
        lemma_repeated_keeps_suffixes(
            options,
            indented,
            ' ',
            state.pending_indent.spaces() as nat,
        );
    }
    let indented = if state.pending_indent == Indention::Level(0) {
        Ok(state)
    } else {
        after_indent(options, state)
    };
    if let Ok(before) = indented {
        lemma_str_keeps_suffixes(options, before, seq![' ']);
        if let Ok(spaced) = after_space(options, before) {
            let placed = match source_position {
                Some(position) => StateView { source_position: position, ..spaced },
                None => spaced,
            };
            if let Ok(marked) = after_marker(placed) {
                lemma_str_keeps_suffixes(options, marked, text);
            }
        }
    }
}

/// A line break is printed without a change to the pending line suffixes.
pub proof fn lemma_break_keeps_suffixes(
    options: PrinterOptions,
    state: StateView,
    line_mode: LineMode,
)
    ensures
        after_break(options, state, line_mode) matches Ok(after) ==> after.line_suffixes
            == state.line_suffixes,
{
    lemma_str_keeps_suffixes(options, state, seq!['\n']);
    let ended = if state.line_width > 0 {
        after_str(options, state, seq!['\n'])
    } else {
        Ok(state)
    };
    if let Ok(fresh) = ended {
        lemma_str_keeps_suffixes(options, fresh, seq!['\n']);
    }
}

/// Queueing the entries of the pending line suffixes keeps the line suffixes that start in them.
proof fn lemma_entries_queued(
    entries: Seq<SuffixEntry>,
    stack: Seq<StackFrame>,
    queue: Seq<FormatElement>,
)
    ensures
        total_suffixes(entries_queued(entries, stack, queue).1) == pending_suffixes(entries)
            + total_suffixes(queue),
    decreases entries.len(),
{
    broadcast use group_counts;

    if entries.len() > 0 {
        match entries.last() {
            SuffixEntry::Suffix(element) => {
                lemma_entries_queued(entries.drop_last(), stack, seq![element] + queue);
                assert((seq![element] + queue).drop_first() =~= queue);
            },
            SuffixEntry::Args(args) => {
                let end = FormatElement::Tag(Tag::EndLineSuffix);
                lemma_entries_queued(
                    entries.drop_last(),
                    push_frame(stack, TagKind::LineSuffix, args),
                    seq![end] + queue,
                );
                assert((seq![end] + queue).drop_first() =~= queue);
            },
        }
    }
}

/// Flushing leaves less to do if there are pending line suffixes.
pub proof fn lemma_flushed_remaining(machine: Machine, line_break: Option<FormatElement>)
    requires
        line_break matches Some(element) ==> element is Line,
    ensures
        flushed(machine, line_break).remaining().suffixes == machine.remaining().suffixes,
        flushed(machine, line_break).remaining().pending == 0,
        machine.state.line_suffixes.len() == 0 ==> flushed(machine, line_break) == machine,
{
    broadcast use group_counts;

    let behind = match line_break {
        Some(element) => seq![element] + machine.queue,
        None => machine.queue,
    };
    if let Some(element) = line_break {
        assert((seq![element] + machine.queue).drop_first() =~= machine.queue);
    }
    lemma_entries_queued(machine.state.line_suffixes, machine.stack, behind);
}

proof fn lemma_pending_of_content(
    entries: Seq<SuffixEntry>,
    content: Seq<FormatElement>,
    args: PrintElementArgs,
)
    ensures
        pending_suffixes(entries + suffix_entries(content, args)) == pending_suffixes(entries)
            + total_suffixes(content),
{
    let suffixes = content.map_values(|element: FormatElement| SuffixEntry::Suffix(element));
    assert((entries + suffix_entries(content, args)).drop_last() =~= entries + suffixes);
    lemma_pending_of_elements(entries, content);
}

proof fn lemma_pending_of_elements(entries: Seq<SuffixEntry>, content: Seq<FormatElement>)
    ensures
        pending_suffixes(
            entries + content.map_values(
                |element: FormatElement| SuffixEntry::Suffix(element),
            ),
        ) == pending_suffixes(entries) + total_suffixes(content),
    decreases content.len(),
{
    let suffixes = content.map_values(|element: FormatElement| SuffixEntry::Suffix(element));
    lemma_first_counts(content);
    if content.len() == 0 {
        assert(entries + suffixes =~= entries);
    } else {
        let before = content.drop_last();
        let single = seq![content.last()];
        lemma_pending_of_elements(entries, before);
        assert((entries + suffixes).drop_last() =~= entries + before.map_values(
            |element: FormatElement| SuffixEntry::Suffix(element),
        ));
        assert((entries + suffixes).last() == SuffixEntry::Suffix(content.last()));
        assert(content =~= before + single);
        lemma_concat_counts(before, single);
        lemma_first_counts(single);
        lemma_first_counts(single.drop_first());
    }
}

/// Printing an element that has no entries leaves less to print.
pub proof fn lemma_plain_progress(
    options: PrinterOptions,
    machine: Machine,
    element: FormatElement,
)
    requires
        !has_entries(element),
    ensures
        print_plain(options, machine, element) matches Ok(after) ==> after.remaining().less(
            machine.remaining_with(element),
        ),
{
    broadcast use group_counts;

    match element {
        FormatElement::StaticText { text } => {
            lemma_text_keeps_suffixes(options, machine.state, text@, None);
        },
        FormatElement::DynamicText { text, source_position } => {
            lemma_text_keeps_suffixes(options, machine.state, text@, Some(source_position));
        },
        FormatElement::LocatedTokenText { slice, source_position } => {
            lemma_text_keeps_suffixes(options, machine.state, slice@, Some(source_position));
        },
        FormatElement::Line(line_mode) => {
            let flat = machine.mode() == PrintMode::Flat;
            let start = if flat {
                machine.with_measured(false)
            } else {
                machine
            };
            lemma_flushed_remaining(start, Some(element));
            lemma_break_keeps_suffixes(options, start.state, line_mode);
        },
        FormatElement::LineSuffixBoundary => {
            lemma_flushed_remaining(machine, Some(FormatElement::Line(LineMode::Hard)));
        },
        FormatElement::Interned(content) => {
            assert(total_size(content@ + machine.queue) == total_size(content@) + total_size(
                machine.queue,
            ));
        },
        FormatElement::Tag(Tag::StartLineSuffix) => {
            lemma_split_content(machine.queue, TagKind::LineSuffix, 1);
            if let Some((content, rest)) = split_content(machine.queue, TagKind::LineSuffix, 1) {
                lemma_pending_of_content(
                    machine.state.line_suffixes,
                    content,
                    top_args(machine.stack),
                );
            }
        },
        FormatElement::Tag(Tag::StartConditionalContent(_)) => {
            lemma_split_content(machine.queue, TagKind::ConditionalContent, 1);
        },
        _ => {},
    }
}

} // verus!
