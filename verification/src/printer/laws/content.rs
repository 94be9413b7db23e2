//! Printing changes only the blanks between the texts of a document.

use crate::format_element::{
    lemma_concat_counts, lemma_element_counts, lemma_first_counts, total_size, total_suffixes,
    FormatElement, LineMode,
};
use crate::options::PrinterOptions;
use crate::printer::call_stack::{push_frame, top_args, PrintElementArgs, StackFrame};
use crate::printer::indention::Indention;
use crate::printer::laws::lines::lemma_nothing_is_left;
use crate::printer::laws::output::{converted, lemma_str_output};
use crate::printer::line_suffixes::{suffix_entries, SuffixEntry};
use crate::printer::machine::{
    after_break, entries_queued, flushed, lemma_break_keeps_suffixes, lemma_text_keeps_suffixes,
    print_line, print_plain, start_line_suffix, Machine,
};
use crate::printer::outcome::{
    advanced, at_end, depth_behind, fill_layout, item_mode, lemma_next_progress,
    lemma_popped_remaining, not_behind, print_element, print_entry, print_entry_rest, print_fill,
    print_fill_line, print_flat_pairs, print_last_pair, print_next, print_queue, printed_document,
    separator_mode, starting, FillPairLayout,
};
use crate::printer::queue::split_content;
use crate::printer::state::{initial_state, StateView};
use crate::printer::text::{
    after_indent, after_marker, after_repeated, after_space, after_str, after_text, indent_char,
};
use crate::tag::{PrintMode, Tag, TagKind};
use crate::text_size::TextSize;
use vstd::multiset::Multiset;
use vstd::prelude::*;
use vstd::seq_lib::lemma_multiset_commutative;

verus! {

/// Whether a character is a space, a tab or part of a line ending.
pub open spec fn is_blank(character: char) -> bool {
    character == ' ' || character == '\t' || character == '\n' || character == '\r'
}

/// The characters without the blanks.
pub open spec fn visible(chars: Seq<char>) -> Seq<char>
    decreases chars.len(),
{
    if chars.len() == 0 {
        Seq::empty()
    } else if is_blank(chars.last()) {
        visible(chars.drop_last())
    } else {
        visible(chars.drop_last()).push(chars.last())
    }
}

/// The texts of the elements, one after the other.
pub open spec fn text_of(elements: Seq<FormatElement>) -> Seq<char>
    decreases total_size(elements),
{
    if elements.len() == 0 {
        Seq::empty()
    } else {
        proof {
            lemma_first_counts(elements);
            lemma_element_counts(elements[0]);
        }
        let rest = text_of(elements.drop_first());
        match elements[0] {
            FormatElement::StaticText { text } => text@ + rest,
            FormatElement::DynamicText { text, .. } => text@ + rest,
            FormatElement::LocatedTokenText { slice, .. } => slice@ + rest,
            FormatElement::Interned(content) => text_of(content@) + rest,
            _ => rest,
        }
    }
}

/// Whether every text of the elements is printed once: there are no best fitting elements and no
/// conditional contents.
pub open spec fn is_printed_once(elements: Seq<FormatElement>) -> bool
    decreases total_size(elements),
{
    if elements.len() == 0 {
        true
    } else {
        proof {
            lemma_first_counts(elements);
            lemma_element_counts(elements[0]);
        }
        &&& is_printed_once(elements.drop_first())
        &&& match elements[0] {
            FormatElement::BestFitting(_) => false,
            FormatElement::Interned(content) => is_printed_once(content@),
            FormatElement::Tag(Tag::StartConditionalContent(_)) => false,
            _ => true,
        }
    }
}

/// The texts of the pending line suffixes, one after the other.
pub open spec fn pending_text(entries: Seq<SuffixEntry>) -> Seq<char>
    decreases entries.len(),
{
    if entries.len() == 0 {
        Seq::empty()
    } else {
        pending_text(entries.drop_last()) + match entries.last() {
            SuffixEntry::Suffix(element) => text_of(seq![element]),
            SuffixEntry::Args(_) => Seq::empty(),
        }
    }
}

/// Whether every text of the pending line suffixes is printed once.
pub open spec fn pending_is_printed_once(entries: Seq<SuffixEntry>) -> bool
    decreases entries.len(),
{
    if entries.len() == 0 {
        true
    } else {
        &&& pending_is_printed_once(entries.drop_last())
        &&& match entries.last() {
            SuffixEntry::Suffix(element) => is_printed_once(seq![element]),
            SuffixEntry::Args(_) => true,
        }
    }
}

/// The visible characters, in any order.
pub open spec fn letters(chars: Seq<char>) -> Multiset<char> {
    visible(chars).to_multiset()
}

/// The visible characters of the output, of the texts that are queued and of those that are
/// pending.
pub open spec fn all_letters(machine: Machine) -> Multiset<char> {
    letters(machine.state.buffer).add(letters(text_of(machine.queue))).add(
        letters(pending_text(machine.state.line_suffixes)),
    )
}

/// Whether every text that is queued or pending is printed once.
pub open spec fn prints_once(machine: Machine) -> bool {
    is_printed_once(machine.queue) && pending_is_printed_once(machine.state.line_suffixes)
}

/// What is visible of the output and of the texts that are queued.
pub open spec fn whole(machine: Machine) -> Seq<char> {
    visible(machine.state.buffer) + visible(text_of(machine.queue))
}

/// Whether the texts that are queued come next, in this order: there are no line suffixes.
pub open spec fn is_settled(machine: Machine) -> bool {
    total_suffixes(machine.queue) == 0 && machine.state.line_suffixes.len() == 0
}

/// Whether printing lost nothing and added nothing that is visible, and kept the order of the texts
/// where there are no line suffixes.
pub open spec fn keeps_content(before: Machine, after: Machine) -> bool {
    &&& prints_once(after)
    &&& all_letters(after) == all_letters(before)
    &&& is_settled(before) ==> is_settled(after) && whole(after) == whole(before)
}

/// What is visible of two texts is visible of both together.
pub proof fn lemma_visible_concat(left: Seq<char>, right: Seq<char>)
    ensures
        visible(left + right) == visible(left) + visible(right),
    decreases right.len(),
{
    if right.len() == 0 {
        assert(left + right =~= left);
        assert(visible(left) + visible(right) =~= visible(left));
    } else {
        assert((left + right).drop_last() =~= left + right.drop_last());
        lemma_visible_concat(left, right.drop_last());
        assert(visible(left + right) =~= visible(left) + visible(right));
    }
}

/// The texts of two sequences come one after the other.
proof fn lemma_text_concat(left: Seq<FormatElement>, right: Seq<FormatElement>)
    ensures
        text_of(left + right) == text_of(left) + text_of(right),
        is_printed_once(left + right) == (is_printed_once(left) && is_printed_once(right)),
    decreases left.len(),
{
    if left.len() == 0 {
        assert(left + right =~= right);
        assert(text_of(left) + text_of(right) =~= text_of(right));
    } else {
        assert((left + right).drop_first() =~= left.drop_first() + right);
        assert((left + right)[0] == left[0]);
        lemma_text_concat(left.drop_first(), right);
        assert(text_of(left + right) =~= text_of(left) + text_of(right));
    }
}

/// The visible characters of two texts add up.
proof fn lemma_letters_concat(left: Seq<char>, right: Seq<char>)
    ensures
        letters(left + right) == letters(left).add(letters(right)),
{
    lemma_visible_concat(left, right);
    lemma_multiset_commutative(visible(left), visible(right));
}

proof fn lemma_no_letters()
    ensures
        letters(Seq::empty()) == Multiset::<char>::empty(),
{
    broadcast use vstd::seq_lib::group_to_multiset_ensures;

    let none: Seq<char> = Seq::empty();
    assert forall|character: char| #[trigger] letters(none).count(character) == 0 by {
        assert(!none.contains(character));
    }
    assert(letters(none) =~= Multiset::empty());
}

proof fn lemma_single_text(element: FormatElement, rest: Seq<FormatElement>)
    ensures
        text_of(seq![element] + rest) == text_of(seq![element]) + text_of(rest),
        is_printed_once(seq![element] + rest) == (is_printed_once(seq![element])
            && is_printed_once(rest)),
{
    lemma_text_concat(seq![element], rest);
}

/// Flushing puts the pending texts in front of those that are queued.
proof fn lemma_queued_text(
    entries: Seq<SuffixEntry>,
    stack: Seq<StackFrame>,
    queue: Seq<FormatElement>,
)
    ensures
        text_of(entries_queued(entries, stack, queue).1) == pending_text(entries) + text_of(queue),
        is_printed_once(entries_queued(entries, stack, queue).1) == (pending_is_printed_once(
            entries,
        ) && is_printed_once(queue)),
    decreases entries.len(),
{
    if entries.len() == 0 {
        assert(pending_text(entries) + text_of(queue) =~= text_of(queue));
    } else {
        let before = entries.drop_last();
        match entries.last() {
            SuffixEntry::Suffix(element) => {
                lemma_queued_text(before, stack, seq![element] + queue);
                lemma_single_text(element, queue);
            },
            SuffixEntry::Args(args) => {
                let end = FormatElement::Tag(Tag::EndLineSuffix);
                lemma_queued_text(
                    before,
                    push_frame(stack, TagKind::LineSuffix, args),
                    seq![end] + queue,
                );
                lemma_tag_text(Tag::EndLineSuffix, queue);
            },
        }
        assert(text_of(entries_queued(entries, stack, queue).1) =~= pending_text(entries)
            + text_of(queue));
    }
}

/// A tag other than that of conditional content adds nothing to the texts.
proof fn lemma_tag_text(tag: Tag, rest: Seq<FormatElement>)
    requires
        !(tag is StartConditionalContent),
    ensures
        text_of(seq![FormatElement::Tag(tag)] + rest) == text_of(rest),
        is_printed_once(seq![FormatElement::Tag(tag)] + rest) == is_printed_once(rest),
{
    let elements = seq![FormatElement::Tag(tag)] + rest;
    assert(elements.drop_first() =~= rest);
    assert(elements[0] == FormatElement::Tag(tag));
}

/// Content that is taken out keeps its texts, and so does what is left behind it.
proof fn lemma_split_text(elements: Seq<FormatElement>, kind: TagKind, depth: nat)
    requires
        is_printed_once(elements),
    ensures
        split_content(elements, kind, depth) matches Some((content, rest)) ==> {
            &&& text_of(elements) == text_of(content) + text_of(rest)
            &&& is_printed_once(content)
            &&& is_printed_once(rest)
        },
    decreases total_size(elements),
{
    if elements.len() > 0 {
        let first = elements[0];
        let behind = elements.drop_first();
        lemma_first_counts(elements);
        lemma_element_counts(first);
        assert(seq![first] + behind =~= elements);
        match first {
            FormatElement::Interned(content) => {
                lemma_concat_counts(content@, behind);
                lemma_text_concat(content@, behind);
                lemma_split_text(content@ + behind, kind, depth);
            },
            _ => {
                let next = match first {
                    FormatElement::Tag(tag) if tag.marks() == kind && tag.starts() => depth + 1,
                    FormatElement::Tag(tag) if tag.marks() == kind && depth > 1 => (depth
                        - 1) as nat,
                    _ => depth,
                };
                lemma_split_text(behind, kind, next);
                if let Some((content, rest)) = split_content(behind, kind, next) {
                    lemma_single_text(first, content);
                    lemma_single_text(first, behind);
                    assert(text_of(seq![first]) + (text_of(content) + text_of(rest)) =~= (text_of(
                        seq![first],
                    ) + text_of(content)) + text_of(rest));
                }
            },
        }
    }
}

/// The entries of a line suffix hold the texts of its content.
proof fn lemma_pending_extended(
    entries: Seq<SuffixEntry>,
    content: Seq<FormatElement>,
    args: PrintElementArgs,
)
    ensures
        pending_text(entries + suffix_entries(content, args)) == pending_text(entries) + text_of(
            content,
        ),
        pending_is_printed_once(entries + suffix_entries(content, args)) == (
        pending_is_printed_once(entries) && is_printed_once(content)),
{
    let added = suffix_entries(content, args);
    let suffixes = content.map_values(|element: FormatElement| SuffixEntry::Suffix(element));
    assert((entries + added).drop_last() =~= entries + suffixes);
    lemma_suffixes_extended(entries, content);
    assert(pending_text(entries + added) =~= pending_text(entries + suffixes));
}

proof fn lemma_suffixes_extended(entries: Seq<SuffixEntry>, content: Seq<FormatElement>)
    ensures
        ({
            let all = entries + content.map_values(
                |element: FormatElement| SuffixEntry::Suffix(element),
            );
            &&& pending_text(all) == pending_text(entries) + text_of(content)
            &&& pending_is_printed_once(all) == (pending_is_printed_once(entries)
                && is_printed_once(content))
        }),
    decreases content.len(),
{
    let suffixes = content.map_values(|element: FormatElement| SuffixEntry::Suffix(element));
    let all = entries + suffixes;
    if content.len() == 0 {
        assert(all =~= entries);
        assert(pending_text(entries) + text_of(content) =~= pending_text(entries));
    } else {
        let before = content.drop_last();
        let others = before.map_values(|element: FormatElement| SuffixEntry::Suffix(element));
        lemma_suffixes_extended(entries, before);
        assert(all.drop_last() =~= entries + others);
        assert(all.last() == SuffixEntry::Suffix(content.last()));
        assert(before + seq![content.last()] =~= content);
        lemma_text_concat(before, seq![content.last()]);
        assert(pending_text(all) =~= pending_text(entries) + text_of(content));
    }
}

/// Converting the line breaks changes only blanks.
proof fn lemma_visible_converted(options: PrinterOptions, text: Seq<char>)
    ensures
        visible(converted(options, text)) == visible(text),
    decreases text.len(),
{
    if text.len() > 0 {
        let before = converted(options, text.drop_last());
        lemma_visible_converted(options, text.drop_last());
        let last = if text.last() == '\n' {
            options.line_ending.chars()
        } else {
            seq![text.last()]
        };
        reveal_with_fuel(visible, 3);
        lemma_visible_concat(before, last);
        if last.len() == 2 {
            assert(last.drop_last() =~= seq!['\r']);
        } else {
            assert(last.drop_last() =~= Seq::empty());
        }
        assert(visible(converted(options, text)) =~= visible(text));
    }
}

/// Printing characters adds what is visible of them.
proof fn lemma_str_visible(options: PrinterOptions, state: StateView, content: Seq<char>)
    ensures
        after_str(options, state, content) matches Ok(after) ==> visible(after.buffer) == visible(
            state.buffer,
        ) + visible(content),
{
    lemma_str_output(options, state, content);
    lemma_visible_concat(state.buffer, converted(options, content));
    lemma_visible_converted(options, content);
}

/// Printing blanks adds nothing that is visible.
proof fn lemma_repeated_visible(
    options: PrinterOptions,
    state: StateView,
    character: char,
    count: nat,
)
    requires
        is_blank(character),
        character != '\n',
    ensures
        after_repeated(options, state, character, count) matches Ok(after) ==> visible(after.buffer)
            == visible(state.buffer),
    decreases count,
{
    if count > 0 {
        lemma_repeated_visible(options, state, character, (count - 1) as nat);
        if let Ok(printed) = after_repeated(options, state, character, (count - 1) as nat) {
            let buffer = printed.buffer.push(character);
            assert(buffer.drop_last() =~= printed.buffer);
        }
    }
}

/// Printing the pending indention adds nothing that is visible.
proof fn lemma_indent_visible(options: PrinterOptions, state: StateView)
    ensures
        after_indent(options, state) matches Ok(after) ==> visible(after.buffer) == visible(
            state.buffer,
        ),
{
    let start = StateView { pending_indent: Indention::Level(0), ..state };
    let (character, per_level) = indent_char(options);
    let count = state.pending_indent.levels() as nat * per_level;
    lemma_repeated_visible(options, start, character, count);
    if let Ok(indented) = after_repeated(options, start, character, count) {
        lemma_repeated_visible(options, indented, ' ', state.pending_indent.spaces() as nat);
    }
}

/// Printing a text adds what is visible of it.
proof fn lemma_text_visible(
    options: PrinterOptions,
    state: StateView,
    text: Seq<char>,
    source_position: Option<TextSize>,
)
    ensures
        after_text(options, state, text, source_position) matches Ok(after) ==> visible(
            after.buffer,
        ) == visible(state.buffer) + visible(text),
{
    let indented = if state.pending_indent == Indention::Level(0) {
        Ok(state)
    } else {
        after_indent(options, state)
    };
    lemma_indent_visible(options, state);
    if let Ok(before) = indented {
        lemma_str_visible(options, before, seq![' ']);
        assert(seq![' '].drop_last() =~= Seq::empty());
        assert(visible(seq![' ']) =~= Seq::empty()) by {
            reveal_with_fuel(visible, 2);
        }
        assert(visible(before.buffer) + visible(seq![' ']) =~= visible(before.buffer));
        if let Ok(spaced) = after_space(options, before) {
            let start = match source_position {
                Some(position) => StateView { source_position: position, ..spaced },
                None => spaced,
            };
            if let Ok(marked) = after_marker(start) {
                lemma_str_visible(options, marked, text);
            }
        }
    }
}

/// Printing a line break adds nothing that is visible.
proof fn lemma_break_visible(options: PrinterOptions, state: StateView, line_mode: LineMode)
    ensures
        after_break(options, state, line_mode) matches Ok(after) ==> visible(after.buffer)
            == visible(state.buffer),
{
    let feed = seq!['\n'];
    assert(feed.drop_last() =~= Seq::empty());
    assert(visible(feed) =~= Seq::empty()) by {
        reveal_with_fuel(visible, 2);
    }
    lemma_str_visible(options, state, feed);
    assert(visible(state.buffer) + visible(feed) =~= visible(state.buffer));
    let ended = if state.line_width > 0 {
        after_str(options, state, feed)
    } else {
        Ok(state)
    };
    if let Ok(fresh) = ended {
        lemma_str_visible(options, fresh, feed);
        assert(visible(fresh.buffer) + visible(feed) =~= visible(fresh.buffer));
    }
}

/// Printing a text keeps the content.
proof fn lemma_text_keeps_content(
    options: PrinterOptions,
    machine: Machine,
    text: Seq<char>,
    source_position: Option<TextSize>,
)
    requires
        prints_once(machine),
        machine.queue.len() > 0,
        text_of(machine.queue) == text + text_of(machine.queue.drop_first()),
    ensures
        after_text(options, machine.state, text, source_position) matches Ok(state)
            ==> keeps_content(machine, (Machine { state, ..machine.popped() })),
{
    let rest = machine.queue.drop_first();
    lemma_text_visible(options, machine.state, text, source_position);
    lemma_text_keeps_suffixes(options, machine.state, text, source_position);
    lemma_first_counts(machine.queue);
    if let Ok(state) = after_text(options, machine.state, text, source_position) {
        let after = Machine { state, ..machine.popped() };
        lemma_visible_concat(text, text_of(rest));
        lemma_letters_concat(text, text_of(rest));
        lemma_multiset_commutative(visible(machine.state.buffer), visible(text));
        assert(all_letters(after) =~= all_letters(machine));
        assert(whole(after) =~= whole(machine));
    }
}

/// Flushing the pending line suffixes keeps the content.
proof fn lemma_flushed_keeps_content(machine: Machine, line_break: Option<FormatElement>)
    requires
        prints_once(machine),
        line_break matches Some(element) ==> element is Line,
    ensures
        keeps_content(machine, flushed(machine, line_break)),
{
    let entries = machine.state.line_suffixes;
    if entries.len() > 0 {
        let behind = match line_break {
            Some(element) => seq![element] + machine.queue,
            None => machine.queue,
        };
        if line_break is Some {
            assert(behind.drop_first() =~= machine.queue);
        }
        assert(text_of(behind) == text_of(machine.queue));
        lemma_queued_text(entries, machine.stack, behind);
        lemma_letters_concat(pending_text(entries), text_of(behind));
        lemma_no_letters();
        assert(all_letters(flushed(machine, line_break)) =~= all_letters(machine));
    }
}

/// Starting a line suffix keeps the content.
proof fn lemma_line_suffix_keeps_content(machine: Machine)
    requires
        prints_once(machine),
        machine.queue.len() > 0,
        machine.queue[0] == FormatElement::Tag(Tag::StartLineSuffix),
    ensures
        start_line_suffix(machine.popped()) matches Ok(after) ==> keeps_content(machine, after),
{
    let queue = machine.queue.drop_first();
    let entries = machine.state.line_suffixes;
    lemma_first_counts(machine.queue);
    lemma_element_counts(machine.queue[0]);
    lemma_split_text(queue, TagKind::LineSuffix, 1);
    if let Some((content, rest)) = split_content(queue, TagKind::LineSuffix, 1) {
        lemma_pending_extended(entries, content, top_args(machine.stack));
        lemma_letters_concat(text_of(content), text_of(rest));
        lemma_letters_concat(pending_text(entries), text_of(content));
        let after = start_line_suffix(machine.popped())->Ok_0;
        assert(all_letters(after) =~= all_letters(machine));
    }
}

/// Printing an element without entries keeps the content.
proof fn lemma_plain_keeps_content(options: PrinterOptions, machine: Machine)
    requires
        prints_once(machine),
        machine.queue.len() > 0,
    ensures
        print_plain(options, machine.popped(), machine.queue[0]) matches Ok(after)
            ==> keeps_content(machine, after),
{
    let popped = machine.popped();
    lemma_first_counts(machine.queue);
    lemma_element_counts(machine.queue[0]);
    match machine.queue[0] {
        FormatElement::StaticText { text } => {
            lemma_text_keeps_content(options, machine, text@, None);
        },
        FormatElement::DynamicText { text, source_position } => {
            lemma_text_keeps_content(options, machine, text@, Some(source_position));
        },
        FormatElement::LocatedTokenText { slice, source_position } => {
            lemma_text_keeps_content(options, machine, slice@, Some(source_position));
        },
        FormatElement::Interned(content) => {
            lemma_text_concat(content@, popped.queue);
            lemma_concat_counts(content@, popped.queue);
        },
        FormatElement::Line(line_mode) => {
            lemma_line_keeps_content(options, machine, line_mode);
        },
        FormatElement::LineSuffixBoundary => {
            lemma_flushed_keeps_content(popped, Some(FormatElement::Line(LineMode::Hard)));
        },
        FormatElement::Tag(Tag::StartLineSuffix) => {
            lemma_line_suffix_keeps_content(machine);
        },
        _ => {},
    }
}

/// Printing a line break keeps the content.
proof fn lemma_line_keeps_content(
    options: PrinterOptions,
    machine: Machine,
    line_mode: LineMode,
)
    requires
        prints_once(machine),
        machine.queue.len() > 0,
        machine.queue[0] == FormatElement::Line(line_mode),
    ensures
        print_line(options, machine.popped(), line_mode) matches Ok(after) ==> keeps_content(
            machine,
            after,
        ),
{
    let popped = machine.popped();
    let start = if machine.mode() == PrintMode::Flat {
        popped.with_measured(false)
    } else {
        popped
    };
    lemma_first_counts(machine.queue);
    lemma_element_counts(machine.queue[0]);
    lemma_flushed_keeps_content(start, Some(FormatElement::Line(line_mode)));
    lemma_break_visible(options, start.state, line_mode);
    lemma_break_keeps_suffixes(options, start.state, line_mode);
}

/// Printing an element keeps the content.
proof fn lemma_element_keeps_content(options: PrinterOptions, machine: Machine)
    requires
        prints_once(machine),
        machine.queue.len() > 0,
    ensures
        print_element(options, machine.popped(), machine.queue[0]) matches Ok(after)
            ==> keeps_content(machine, after),
    decreases
        machine.remaining().suffixes,
        machine.remaining().pending,
        machine.remaining().size,
        0nat,
{
    let popped = machine.popped();
    match machine.queue[0] {
        FormatElement::Tag(Tag::StartFill) => {
            let args = top_args(machine.stack);
            let inside = popped.entering(TagKind::Fill, args);
            lemma_popped_remaining(machine);
            lemma_first_counts(machine.queue);
            assert(keeps_content(machine, inside));
            lemma_fill_keeps_content(options, inside, args);
        },
        _ => {
            lemma_plain_keeps_content(options, machine);
        },
    }
}

/// Printing an entry keeps the content.
proof fn lemma_entry_keeps_content(
    options: PrinterOptions,
    machine: Machine,
    args: PrintElementArgs,
)
    requires
        prints_once(machine),
    ensures
        print_entry(options, machine, args) matches Ok(after) ==> keeps_content(machine, after),
    decreases
        machine.remaining().suffixes,
        machine.remaining().pending,
        machine.remaining().size,
        2nat,
{
    lemma_entry_rest_keeps_content(options, machine, args, 0);
}

proof fn lemma_entry_rest_keeps_content(
    options: PrinterOptions,
    machine: Machine,
    args: PrintElementArgs,
    depth: nat,
)
    requires
        prints_once(machine),
    ensures
        print_entry_rest(options, machine, args, depth) matches Ok(after) ==> keeps_content(
            machine,
            after,
        ),
    decreases
        machine.remaining().suffixes,
        machine.remaining().pending,
        machine.remaining().size,
        1nat,
{
    if machine.queue.len() > 0 {
        let element = machine.queue[0];
        let popped = machine.popped();
        lemma_popped_remaining(machine);
        if element == FormatElement::Tag(Tag::StartEntry) && depth == 0 {
            let inside = popped.entering(TagKind::Entry, args);
            lemma_first_counts(machine.queue);
            assert(keeps_content(machine, inside));
            lemma_entry_rest_keeps_content(options, inside, args, 1);
        } else {
            lemma_element_keeps_content(options, machine);
            if let Ok(next) = advanced(
                machine.remaining(),
                print_element(options, popped, element),
            ) {
                lemma_entry_rest_keeps_content(options, next, args, depth_behind(element, depth));
            }
        }
    }
}

/// Printing a fill keeps the content.
proof fn lemma_fill_keeps_content(
    options: PrinterOptions,
    machine: Machine,
    args: PrintElementArgs,
)
    requires
        prints_once(machine),
    ensures
        print_fill(options, machine, args) matches Ok(after) ==> keeps_content(machine, after),
    decreases
        machine.remaining().suffixes,
        machine.remaining().pending,
        machine.remaining().size,
        6nat,
{
    lemma_fill_line_keeps_content(options, machine, args);
    if let Ok(next) = advanced(machine.remaining(), print_fill_line(options, machine, args)) {
        lemma_fill_keeps_content(options, next, args);
    }
}

proof fn lemma_fill_line_keeps_content(
    options: PrinterOptions,
    machine: Machine,
    args: PrintElementArgs,
)
    requires
        prints_once(machine),
    ensures
        print_fill_line(options, machine, args) matches Ok(after) ==> keeps_content(machine, after),
    decreases
        machine.remaining().suffixes,
        machine.remaining().pending,
        machine.remaining().size,
        5nat,
{
    if let Ok((pairs, layout, group_modes)) = fill_layout(options, machine) {
        let start = machine.with_group_modes(group_modes).with_measured(true);
        let flat = args.in_mode(PrintMode::Flat);
        lemma_flat_pairs_keep_content(options, start, flat, pairs);
        if let Ok(next) = not_behind(
            start.remaining(),
            print_flat_pairs(options, start, flat, pairs),
        ) {
            lemma_last_pair_keeps_content(options, next, args, layout);
        }
    }
}

proof fn lemma_flat_pairs_keep_content(
    options: PrinterOptions,
    machine: Machine,
    args: PrintElementArgs,
    count: nat,
)
    requires
        prints_once(machine),
    ensures
        print_flat_pairs(options, machine, args, count) matches Ok(after) ==> keeps_content(
            machine,
            after,
        ),
    decreases
        machine.remaining().suffixes,
        machine.remaining().pending,
        machine.remaining().size,
        3nat,
{
    if count > 0 {
        lemma_entry_keeps_content(options, machine, args);
        if let Ok(item) = advanced(machine.remaining(), print_entry(options, machine, args)) {
            lemma_entry_keeps_content(options, item, args);
            if let Ok(separator) = advanced(item.remaining(), print_entry(options, item, args)) {
                lemma_flat_pairs_keep_content(options, separator, args, (count - 1) as nat);
            }
        }
    }
}

proof fn lemma_last_pair_keeps_content(
    options: PrinterOptions,
    machine: Machine,
    args: PrintElementArgs,
    layout: FillPairLayout,
)
    requires
        prints_once(machine),
    ensures
        print_last_pair(options, machine, args, layout) matches Ok(after) ==> keeps_content(
            machine,
            after,
        ),
    decreases
        machine.remaining().suffixes,
        machine.remaining().pending,
        machine.remaining().size,
        4nat,
{
    if let Ok((mode, group_modes)) = item_mode(options, machine, layout) {
        let measured = machine.with_group_modes(group_modes);
        lemma_entry_keeps_content(options, measured, args.in_mode(mode));
        if let Ok(item) = advanced(
            machine.remaining(),
            print_entry(options, measured, args.in_mode(mode)),
        ) {
            let start = item.entering(TagKind::Fill, args.in_mode(PrintMode::Flat));
            assert(start.remaining() == item.remaining());
            assert(prints_once(start));
            lemma_entry_keeps_content(options, start, args.in_mode(separator_mode(layout)));
        }
    }
}

/// Printing all that is queued keeps the content.
proof fn lemma_queue_keeps_content(options: PrinterOptions, machine: Machine)
    requires
        prints_once(machine),
    ensures
        print_queue(options, machine) matches Ok(after) ==> keeps_content(machine, after),
    decreases
        machine.remaining().suffixes,
        machine.remaining().pending,
        machine.remaining().size,
{
    if machine.queue.len() > 0 {
        lemma_next_progress(options, machine);
        lemma_element_keeps_content(options, machine);
        reveal(print_next);
        if let Ok(printed) = print_element(options, machine.popped(), machine.queue[0]) {
            lemma_flushed_keeps_content(printed, None);
            lemma_queue_keeps_content(options, at_end(printed));
        }
    }
}

/// Every text of a document is printed, and nothing else that is visible. Documents with best
/// fitting elements or conditional contents are another matter, as not all of their texts are
/// printed.
pub proof fn lemma_every_text_is_printed(
    options: PrinterOptions,
    document: Seq<FormatElement>,
    indent: u16,
)
    requires
        is_printed_once(document),
    ensures
        printed_document(options, initial_state(), document, indent) matches Ok(printed)
            ==> letters(printed.code) == letters(text_of(document)),
{
    let start = starting(initial_state(), document, indent);
    lemma_queue_keeps_content(options, start);
    lemma_nothing_is_left(options, start);
    lemma_no_letters();
    assert(all_letters(start) =~= letters(text_of(document)));
    if let Ok(after) = print_queue(options, start) {
        assert(all_letters(after) =~= letters(after.state.buffer));
    }
}

/// Printing changes only blanks where there are no line suffixes either: without blanks the code is
/// the texts of the document, one after the other.
pub proof fn lemma_only_blanks_change(
    options: PrinterOptions,
    document: Seq<FormatElement>,
    indent: u16,
)
    requires
        is_printed_once(document),
        total_suffixes(document) == 0,
    ensures
        printed_document(options, initial_state(), document, indent) matches Ok(printed)
            ==> visible(printed.code) == visible(text_of(document)),
{
    let start = starting(initial_state(), document, indent);
    lemma_queue_keeps_content(options, start);
    lemma_nothing_is_left(options, start);
    assert(whole(start) =~= visible(text_of(document)));
    if let Ok(after) = print_queue(options, start) {
        assert(whole(after) =~= visible(after.state.buffer));
    }
}

} // verus!
