//! How line breaks, spaces and indentions are printed.

use crate::format_element::{FormatElement, LineMode};
use crate::options::{IndentStyle, PrinterOptions};
use crate::printer::call_stack::{push_frame, top_args, IndentView, StackFrame};
use crate::printer::indention::Indention;
use crate::printer::line_suffixes::{suffix_entries, SuffixEntry};
use crate::printer::machine::{
    entries_queued, flushed, lemma_str_keeps_suffixes, print_end, print_line, print_plain,
    print_start, start_line_suffix, Machine,
};
use crate::printer::outcome::{at_end, lemma_next_progress, print_element, print_next, print_queue};
use crate::printer::queue::split_content;
use crate::printer::state::{Halt, StateView, Stop};
use crate::printer::text::{after_char, after_indent, after_repeated, after_str, indent_char};
use crate::tag::{Align, DedentMode, PrintMode, Tag, TagKind};
use vstd::prelude::*;

verus! {

/// The state after a single line break.
proof fn lemma_single_break(options: PrinterOptions, state: StateView)
    ensures
        after_str(options, state, seq!['\n']) matches Ok(after) ==> {
            &&& after.line_width == 0
            &&& !after.has_empty_line
            &&& !after.measured_group_fits
            &&& after == (StateView {
                buffer: state.buffer + options.line_ending.chars(),
                generated_line: state.generated_line + 1,
                generated_column: 0,
                line_width: 0,
                measured_group_fits: false,
                has_empty_line: false,
                ..state
            })
        },
{
    let content = seq!['\n'];
    assert(content.drop_last() =~= Seq::empty());
    assert(after_str(options, state, content.drop_last()) == Ok::<StateView, Halt>(state));
}

/// Consecutive line breaks are printed as one: behind a hard line break or an empty line, a hard line
/// break changes nothing, and behind an empty line another one changes nothing either.
pub proof fn lemma_consecutive_lines(
    options: PrinterOptions,
    machine: Machine,
    first: LineMode,
    second: LineMode,
)
    requires
        first == LineMode::Empty || (first == LineMode::Hard && second == LineMode::Hard),
        second == LineMode::Empty || second == LineMode::Hard,
        machine.state.line_suffixes.len() == 0,
    ensures
        print_line(options, machine, first) matches Ok(after) ==> print_line(
            options,
            after,
            second,
        ) == Ok::<Machine, Stop<Machine>>(after),
{
    let start = if machine.mode() == PrintMode::Flat {
        machine.with_measured(false)
    } else {
        machine
    };
    lemma_single_break(options, start.state);
    let ended = if start.state.line_width > 0 {
        after_str(options, start.state, seq!['\n'])
    } else {
        Ok(start.state)
    };
    if let Ok(fresh) = ended {
        lemma_single_break(options, fresh);
        lemma_str_keeps_suffixes(options, start.state, seq!['\n']);
        lemma_str_keeps_suffixes(options, fresh, seq!['\n']);
    }
    if let Ok(after) = print_line(options, machine, first) {
        assert(after.state.line_width <= 0);
        assert(after.state.line_suffixes.len() == 0);
        assert(after.mode() == machine.mode());
        assert(after.state.pending_indent == after.indents.stack.current());
        assert(print_line(options, after, second) == Ok::<Machine, Stop<Machine>>(after));
    }
}

/// A hard line break ends the line: it adds a line ending to the output, unless nothing was printed
/// on the line, and the next text starts a line with the current indention.
pub proof fn lemma_hard_line(options: PrinterOptions, machine: Machine)
    requires
        machine.state.line_suffixes.len() == 0,
        machine.state.line_width >= 0,
    ensures
        print_line(options, machine, LineMode::Hard) matches Ok(after) ==> {
            &&& after.state.line_width == 0
            &&& after.state.pending_indent == machine.indents.stack.current()
            &&& !after.state.pending_space
            &&& after.state.buffer == (if machine.state.line_width > 0 {
                machine.state.buffer + options.line_ending.chars()
            } else {
                machine.state.buffer
            })
        },
{
    let start = if machine.mode() == PrintMode::Flat {
        machine.with_measured(false)
    } else {
        machine
    };
    lemma_single_break(options, start.state);
}

/// In flat mode soft line breaks print nothing and stay on the line.
pub proof fn lemma_soft_line_in_flat_mode(
    options: PrinterOptions,
    machine: Machine,
    line_mode: LineMode,
)
    requires
        machine.mode() == PrintMode::Flat,
        line_mode == LineMode::Soft || line_mode == LineMode::SoftOrSpace,
    ensures
        print_line(options, machine, line_mode) matches Ok(after) && after.state.buffer
            == machine.state.buffer && after.state.line_width == machine.state.line_width
            && after.queue == machine.queue,
{
}

/// In expanded mode every line break ends the line.
pub proof fn lemma_line_in_expanded_mode(
    options: PrinterOptions,
    machine: Machine,
    line_mode: LineMode,
)
    requires
        machine.mode() == PrintMode::Expanded,
        machine.state.line_suffixes.len() == 0,
        machine.state.line_width >= 0,
    ensures
        print_line(options, machine, line_mode) matches Ok(after) ==> after.state.line_width == 0,
{
    lemma_single_break(options, machine.state);
    if let Ok(fresh) = after_str(options, machine.state, seq!['\n']) {
        lemma_single_break(options, fresh);
    }
}

/// Spaces at the start of a line are not printed.
pub proof fn lemma_space_at_line_start(
    options: PrinterOptions,
    machine: Machine,
    element: FormatElement,
)
    requires
        element is Space || element is HardSpace,
        machine.state.line_width == 0,
    ensures
        print_plain(options, machine, element) == Ok::<Machine, Stop<Machine>>(machine),
{
}

/// A space is printed as one, however often it is repeated.
pub proof fn lemma_repeated_spaces(options: PrinterOptions, machine: Machine, element: FormatElement)
    requires
        element is Space || element is HardSpace,
    ensures
        print_plain(options, machine, element) matches Ok(after) && print_plain(
            options,
            after,
            element,
        ) == Ok::<Machine, Stop<Machine>>(after),
{
}

/// Printing a character that is no line break a number of times adds it that often to the output.
pub proof fn lemma_repeated_output(
    options: PrinterOptions,
    state: StateView,
    character: char,
    count: nat,
)
    requires
        character != '\n',
    ensures
        after_repeated(options, state, character, count) matches Ok(after) ==> {
            &&& after.buffer == state.buffer + Seq::new(count, |i: int| character)
            &&& after.pending_indent == state.pending_indent
        },
    decreases count,
{
    if count == 0 {
        assert(state.buffer =~= state.buffer + Seq::new(0, |i: int| character));
    } else {
        lemma_repeated_output(options, state, character, (count - 1) as nat);
        if let Ok(printed) = after_repeated(options, state, character, (count - 1) as nat) {
            if let Ok(after) = after_char(options, printed, character) {
                assert(after.buffer =~= state.buffer + Seq::new(count, |i: int| character));
            }
        }
    }
}

/// The pending indention is printed with the indent character of the options, followed by the spaces
/// of the align.
pub proof fn lemma_indent_output(options: PrinterOptions, state: StateView)
    ensures
        after_indent(options, state) matches Ok(after) ==> {
            let levels = state.pending_indent.levels() as nat;
            let spaces = state.pending_indent.spaces() as nat;
            &&& after.pending_indent == Indention::Level(0)
            &&& options.indent_style == IndentStyle::Tab ==> after.buffer == state.buffer
                + Seq::new(levels, |i: int| '\t') + Seq::new(spaces, |i: int| ' ')
            &&& options.indent_style == IndentStyle::Space ==> after.buffer == state.buffer
                + Seq::new(levels * options.indent_width.columns as nat, |i: int| ' ') + Seq::new(
                spaces,
                |i: int| ' ',
            )
        },
{
    let start = StateView { pending_indent: Indention::Level(0), ..state };
    let (character, per_level) = indent_char(options);
    let levels = state.pending_indent.levels() as nat;
    lemma_repeated_output(options, start, character, levels * per_level);
    if let Ok(indented) = after_repeated(options, start, character, levels * per_level) {
        lemma_repeated_output(options, indented, ' ', state.pending_indent.spaces() as nat);
    }
    assert(levels * 1 == levels);
}

/// The end of a dedent restores the indention from before its start.
pub proof fn lemma_dedent_restores(indents: IndentView)
    requires
        indents.indentions.len() > 0,
    ensures
        indents.dedented().restored() == indents,
{
    assert(indents.dedented().restored().indentions =~= indents.indentions);
    assert(indents.dedented().restored().history =~= indents.history);
}

/// The end of an indent goes back to the indention from before its start.
pub proof fn lemma_indent_restores(indents: IndentView, indention: Indention)
    ensures
        indents.pushed(indention).popped() == indents,
        indents.pushed(indention).current() == indention,
{
    assert(indents.pushed(indention).popped().indentions =~= indents.indentions);
}

/// What an indent around content does to the indention and to the parts on the stack, its end undoes.
pub proof fn lemma_indent_end_undoes_start(options: PrinterOptions, machine: Machine)
    ensures
        print_start(options, machine, Tag::StartIndent) matches Ok(inside) ==> print_end(
            inside,
            Tag::EndIndent,
        ) == Ok::<Machine, Stop<Machine>>(machine),
{
    if let Ok(inside) = print_start(options, machine, Tag::StartIndent) {
        let current = machine.indents.stack.current();
        lemma_indent_restores(machine.indents.stack, current.incremented(options.indent_style));
        assert(inside.stack.drop_last() =~= machine.stack);
        assert(print_end(inside, Tag::EndIndent)->Ok_0 =~= machine);
    }
}

/// What an align around content does to the indention and to the parts on the stack, its end undoes.
pub proof fn lemma_align_end_undoes_start(options: PrinterOptions, machine: Machine, align: Align)
    ensures
        print_start(options, machine, Tag::StartAlign(align)) matches Ok(inside) ==> print_end(
            inside,
            Tag::EndAlign,
        ) == Ok::<Machine, Stop<Machine>>(machine),
{
    if let Ok(inside) = print_start(options, machine, Tag::StartAlign(align)) {
        let current = machine.indents.stack.current();
        lemma_indent_restores(machine.indents.stack, current.aligned(align));
        assert(inside.stack.drop_last() =~= machine.stack);
        assert(print_end(inside, Tag::EndAlign)->Ok_0 =~= machine);
    }
}

/// What a dedent around content does to the indention and to the parts on the stack, its end undoes.
pub proof fn lemma_dedent_end_undoes_start(
    options: PrinterOptions,
    machine: Machine,
    mode: DedentMode,
)
    requires
        machine.indents.stack.indentions.len() > 0,
    ensures
        print_start(options, machine, Tag::StartDedent(mode)) matches Ok(inside) && print_end(
            inside,
            Tag::EndDedent(mode),
        ) == Ok::<Machine, Stop<Machine>>(machine),
{
    let inside = print_start(options, machine, Tag::StartDedent(mode))->Ok_0;
    lemma_dedent_restores(machine.indents.stack);
    lemma_indent_restores(machine.indents.stack, Indention::Level(0));
    assert(inside.stack.drop_last() =~= machine.stack);
    assert(print_end(inside, Tag::EndDedent(mode))->Ok_0 =~= machine);
}

/// The content of a single line suffix comes before the line break that flushes it, with its end
/// behind it and with the indention and the arguments from where it started.
pub proof fn lemma_line_suffix_flushed(
    machine: Machine,
    content: Seq<FormatElement>,
    rest: Seq<FormatElement>,
    line_break: FormatElement,
)
    requires
        machine.state.line_suffixes.len() == 0,
        machine.indents.suffixes.len() == 0,
        split_content(machine.queue, TagKind::LineSuffix, 1) == Some((content, rest)),
    ensures
        start_line_suffix(machine) matches Ok(waiting) && {
            let after = flushed(waiting, Some(line_break));
            &&& waiting.queue == rest
            &&& after.queue == content + seq![
                FormatElement::Tag(Tag::EndLineSuffix),
                line_break,
            ] + rest
            &&& after.indents.stack.current() == machine.indents.stack.current()
            &&& after.stack == push_frame(
                machine.stack,
                TagKind::LineSuffix,
                top_args(machine.stack),
            )
            &&& after.state.line_suffixes.len() == 0
        },
{
    let args = top_args(machine.stack);
    let waiting = start_line_suffix(machine)->Ok_0;
    let entries = suffix_entries(content, args);
    assert(machine.state.line_suffixes + entries =~= entries);
    let behind = seq![line_break] + rest;
    let end = seq![FormatElement::Tag(Tag::EndLineSuffix)];
    let elements = content.map_values(|element: FormatElement| SuffixEntry::Suffix(element));
    assert(entries.drop_last() =~= elements);
    let stack = push_frame(machine.stack, TagKind::LineSuffix, args);
    lemma_elements_queued(content, stack, end + behind);
    let after = flushed(waiting, Some(line_break));
    assert(after.queue == content + (end + behind));
    assert(after.queue =~= content + seq![FormatElement::Tag(Tag::EndLineSuffix), line_break]
        + rest);
    let suffixes = machine.indents.suffixes.push(machine.indents.stack.current());
    assert(suffixes.reverse() =~= seq![machine.indents.stack.current()]);
}

/// The elements of a line suffix are queued in their order.
pub proof fn lemma_elements_queued(
    content: Seq<FormatElement>,
    stack: Seq<StackFrame>,
    queue: Seq<FormatElement>,
)
    ensures
        entries_queued(
            content.map_values(|element: FormatElement| SuffixEntry::Suffix(element)),
            stack,
            queue,
        ) == (stack, content + queue),
    decreases content.len(),
{
    let entries = content.map_values(|element: FormatElement| SuffixEntry::Suffix(element));
    if content.len() == 0 {
        assert(content + queue =~= queue);
    } else {
        assert(entries.drop_last() =~= content.drop_last().map_values(
            |element: FormatElement| SuffixEntry::Suffix(element),
        ));
        lemma_elements_queued(content.drop_last(), stack, seq![content.last()] + queue);
        assert(content.drop_last() + (seq![content.last()] + queue) =~= content + queue);
    }
}

/// Queueing entries leaves no less in the queue.
proof fn lemma_queued_len(
    entries: Seq<SuffixEntry>,
    stack: Seq<StackFrame>,
    queue: Seq<FormatElement>,
)
    ensures
        entries_queued(entries, stack, queue).1.len() == entries.len() + queue.len(),
    decreases entries.len(),
{
    if entries.len() > 0 {
        match entries.last() {
            SuffixEntry::Suffix(element) => {
                lemma_queued_len(entries.drop_last(), stack, seq![element] + queue);
            },
            SuffixEntry::Args(args) => {
                lemma_queued_len(
                    entries.drop_last(),
                    push_frame(stack, TagKind::LineSuffix, args),
                    seq![FormatElement::Tag(Tag::EndLineSuffix)] + queue,
                );
            },
        }
    }
}

/// Printing ends when nothing is left to print: the line suffixes that no line break came for are
/// printed at the end.
pub proof fn lemma_nothing_is_left(options: PrinterOptions, machine: Machine)
    requires
        machine.queue.len() > 0 || machine.state.line_suffixes.len() == 0,
    ensures
        print_queue(options, machine) matches Ok(after) ==> {
            &&& after.queue.len() == 0
            &&& after.state.line_suffixes.len() == 0
        },
    decreases
        machine.remaining().suffixes,
        machine.remaining().pending,
        machine.remaining().size,
{
    if machine.queue.len() > 0 {
        lemma_next_progress(options, machine);
        reveal(print_next);
        if let Ok(printed) = print_element(options, machine.popped(), machine.queue[0]) {
            lemma_queued_len(printed.state.line_suffixes, printed.stack, printed.queue);
            lemma_nothing_is_left(options, at_end(printed));
        }
    }
}

} // verus!
