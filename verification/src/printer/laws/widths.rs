//! How many columns text takes, when it is measured and when it is printed.

use crate::options::{IndentStyle, LineEnding, PrinterOptions};
use crate::printed::SourceMarker;
use crate::printer::fits::{fits_text, measured, pending_width, Fits, FitsView};
use crate::printer::indention::Indention;
use crate::printer::laws::output::{converted, lemma_byte_len_concat};
use crate::printer::state::{Halt, StateView, Stop};
use crate::printer::text::{
    after_indent, after_marker, after_repeated, after_space, after_str, after_text, indent_char,
};
use crate::printer::width::{columns, displayed_width};
use crate::tag::Align;
use crate::text_size::{byte_len, TextSize};
use vstd::prelude::*;

verus! {

/// The columns of a character: a tab is as wide as a level of indention, control characters take no
/// column, the other ASCII characters take one, and all others their displayed width.
pub open spec fn glyph_columns(options: PrinterOptions, character: char) -> int {
    if character == '\t' {
        options.indent_width.columns as int
    } else if '\u{20}' <= character <= '\u{7e}' {
        1
    } else if '\u{a0}' <= character {
        match displayed_width(character) {
            Some(width) => width as int,
            None => 0,
        }
    } else {
        0
    }
}

/// The columns of all characters of a text together.
pub open spec fn text_columns(options: PrinterOptions, text: Seq<char>) -> int
    decreases text.len(),
{
    if text.len() == 0 {
        0
    } else {
        glyph_columns(options, text[0]) + text_columns(options, text.drop_first())
    }
}

/// The columns of an indention: those of its levels and the spaces of its align.
pub open spec fn indent_columns(options: PrinterOptions, indention: Indention) -> int {
    match indention {
        Indention::Level(level) => level * options.indent_width.columns,
        Indention::Align { level, align, .. } => level * options.indent_width.columns
            + align.spaces(),
    }
}

/// The characters of an indention: a tab, or as many spaces as a level is wide, for every level,
/// and the spaces of the align behind them.
pub open spec fn indent_text(options: PrinterOptions, indention: Indention) -> Seq<char> {
    let levels = match indention {
        Indention::Level(level) => level,
        Indention::Align { level, .. } => level,
    };
    let spaces = match indention {
        Indention::Level(_) => 0,
        Indention::Align { align, .. } => align.spaces(),
    };
    (match options.indent_style {
        IndentStyle::Tab => Seq::new(levels as nat, |i: int| '\t'),
        IndentStyle::Space => Seq::new(
            levels as nat * options.indent_width.columns as nat,
            |i: int| ' ',
        ),
    }) + Seq::new(spaces as nat, |i: int| ' ')
}

/// A pending space.
pub open spec fn space_text(pending_space: bool) -> Seq<char> {
    if pending_space {
        seq![' ']
    } else {
        Seq::empty()
    }
}

/// The columns that a text starts at: those of the line, of the pending indention and of the pending
/// space.
pub open spec fn start_column(
    options: PrinterOptions,
    line_width: int,
    indention: Indention,
    pending_space: bool,
) -> int {
    line_width + indent_columns(options, indention) + space_text(pending_space).len()
}

proof fn lemma_glyph_columns(options: PrinterOptions, character: char)
    ensures
        columns(options, character) == glyph_columns(options, character),
        glyph_columns(options, character) >= 0,
{
}

proof fn lemma_columns_behind(options: PrinterOptions, text: Seq<char>, last: char)
    ensures
        text_columns(options, text.push(last)) == text_columns(options, text) + glyph_columns(
            options,
            last,
        ),
    decreases text.len(),
{
    let all = text.push(last);
    if text.len() == 0 {
        assert(all.drop_first() =~= Seq::empty());
        assert(text_columns(options, all.drop_first()) == 0);
    } else {
        assert(all.drop_first() =~= text.drop_first().push(last));
        lemma_columns_behind(options, text.drop_first(), last);
    }
}

/// The columns of a text without its last character.
proof fn lemma_columns_before(options: PrinterOptions, text: Seq<char>)
    requires
        text.len() > 0,
    ensures
        text_columns(options, text) == text_columns(options, text.drop_last()) + glyph_columns(
            options,
            text.last(),
        ),
{
    assert(text =~= text.drop_last().push(text.last()));
    lemma_columns_behind(options, text.drop_last(), text.last());
}

/// Text takes at least no columns.
pub proof fn lemma_columns_positive(options: PrinterOptions, text: Seq<char>)
    ensures
        text_columns(options, text) >= 0,
    decreases text.len(),
{
    if text.len() > 0 {
        lemma_glyph_columns(options, text[0]);
        lemma_columns_positive(options, text.drop_first());
    }
}

/// The columns of two texts, one behind the other.
pub proof fn lemma_columns_concat(options: PrinterOptions, left: Seq<char>, right: Seq<char>)
    ensures
        text_columns(options, left + right) == text_columns(options, left) + text_columns(
            options,
            right,
        ),
    decreases left.len(),
{
    if left.len() == 0 {
        assert(left + right =~= right);
    } else {
        assert((left + right).drop_first() =~= left.drop_first() + right);
        lemma_columns_concat(options, left.drop_first(), right);
    }
}

/// Measuring counts the columns of a text without a line break.
proof fn lemma_measured_columns(options: PrinterOptions, start: int, text: Seq<char>)
    requires
        !text.contains('\n'),
        start + text_columns(options, text) <= usize::MAX,
    ensures
        measured(options, start, text) == Ok::<(int, bool), Halt>(
            (start + text_columns(options, text), false),
        ),
    decreases text.len(),
{
    if text.len() > 0 {
        let before = text.drop_last();
        lemma_columns_before(options, text);
        lemma_glyph_columns(options, text.last());
        assert forall|i: int| 0 <= i < before.len() implies #[trigger] before[i] != '\n' by {
            assert(text.contains(text[i]));
        }
        assert(text.contains(text[text.len() - 1]));
        lemma_measured_columns(options, start, before);
    }
}

/// Measuring stops at the first line break of a text.
proof fn lemma_measured_break(
    options: PrinterOptions,
    start: int,
    line: Seq<char>,
    rest: Seq<char>,
)
    requires
        !line.contains('\n'),
        start + text_columns(options, line) <= usize::MAX,
    ensures
        measured(options, start, line + seq!['\n'] + rest) == Ok::<(int, bool), Halt>(
            (start + text_columns(options, line), true),
        ),
    decreases rest.len(),
{
    let text = line + seq!['\n'] + rest;
    if rest.len() == 0 {
        assert(text.drop_last() =~= line);
        assert(text.last() == '\n');
        lemma_measured_columns(options, start, line);
    } else {
        assert(text.drop_last() =~= line + seq!['\n'] + rest.drop_last());
        lemma_measured_break(options, start, line, rest.drop_last());
    }
}

/// A text without a line break fits exactly if its columns, added to those of the line and of what is
/// pending before it, are at most the print width. Measuring goes on behind its columns.
pub proof fn lemma_text_fits(options: PrinterOptions, view: FitsView, text: Seq<char>)
    requires
        !text.contains('\n'),
        start_column(
            options,
            view.line_width,
            view.pending_indent,
            view.pending_space,
        ) + text_columns(options, text) <= usize::MAX,
    ensures
        ({
            let end = start_column(
                options,
                view.line_width,
                view.pending_indent,
                view.pending_space,
            ) + text_columns(options, text);
            &&& end <= options.print_width.columns ==> fits_text(options, view, text) == Ok::<
                (Fits, FitsView),
                Stop<FitsView>,
            >(
                (
                    Fits::Maybe,
                    (FitsView {
                        line_width: end,
                        pending_indent: Indention::Level(0),
                        pending_space: false,
                        ..view
                    }),
                ),
            )
            &&& end > options.print_width.columns ==> (fits_text(options, view, text) matches Ok(
                (fits, _),
            ) && fits == Fits::No)
        }),
{
    let start = pending_width(options, view);
    lemma_columns_positive(options, text);
    lemma_measured_columns(options, start, text);
}

/// Of a text with a line break only what comes before the first line break counts. If that fits, the
/// text fits, unless nothing may be expanded.
pub proof fn lemma_text_with_break_fits(
    options: PrinterOptions,
    view: FitsView,
    line: Seq<char>,
    rest: Seq<char>,
)
    requires
        !line.contains('\n'),
        start_column(
            options,
            view.line_width,
            view.pending_indent,
            view.pending_space,
        ) + text_columns(options, line) <= usize::MAX,
    ensures
        fits_text(options, view, line + seq!['\n'] + rest) matches Ok((fits, _)) && fits == (
        if start_column(
            options,
            view.line_width,
            view.pending_indent,
            view.pending_space,
        ) + text_columns(options, line) <= options.print_width.columns && !view.must_be_flat {
            Fits::Yes
        } else {
            Fits::No
        }),
{
    let start = pending_width(options, view);
    lemma_columns_positive(options, line);
    lemma_measured_break(options, start, line, rest);
}

/// Whether the characters of a text can be counted behind the state.
pub open spec fn has_room_for(options: PrinterOptions, state: StateView, text: Seq<char>) -> bool {
    &&& state.line_width >= 0
    &&& state.generated_column >= 0
    &&& state.generated_line + text.len() <= usize::MAX
    &&& state.generated_column + text.len() <= usize::MAX
    &&& state.line_width + text_columns(options, text) <= usize::MAX
}

/// What printing characters changes.
proof fn lemma_str_printed(options: PrinterOptions, state: StateView, text: Seq<char>)
    ensures
        has_room_for(options, state, text) ==> after_str(options, state, text) is Ok,
        after_str(options, state, text) matches Ok(after) ==> {
            &&& after == (StateView {
                buffer: state.buffer + converted(options, text),
                generated_line: after.generated_line,
                generated_column: after.generated_column,
                line_width: after.line_width,
                measured_group_fits: state.measured_group_fits && !text.contains('\n'),
                has_empty_line: state.has_empty_line && text.len() == 0,
                ..state
            })
            &&& !text.contains('\n') ==> after.line_width == state.line_width + text_columns(
                options,
                text,
            )
            &&& state.line_width >= 0 ==> 0 <= after.line_width <= state.line_width + text_columns(
                options,
                text,
            )
            &&& after.generated_line <= state.generated_line + text.len()
            &&& !text.contains('\n') ==> after.generated_line == state.generated_line
            &&& state.generated_column >= 0 ==> 0 <= after.generated_column
                <= state.generated_column + text.len()
        },
    decreases text.len(),
{
    if text.len() == 0 {
        assert(state.buffer + converted(options, text) =~= state.buffer);
    } else {
        let before = text.drop_last();
        lemma_str_printed(options, state, before);
        lemma_columns_before(options, text);
        lemma_glyph_columns(options, text.last());
        assert(text.contains('\n') == (before.contains('\n') || text.last() == '\n')) by {
            if before.contains('\n') {
                let i = choose|i: int| 0 <= i < before.len() && before[i] == '\n';
                assert(text[i] == '\n');
            }
            if text.contains('\n') {
                let i = choose|i: int| 0 <= i < text.len() && text[i] == '\n';
                if i < before.len() {
                    assert(before[i] == '\n');
                }
            }
            assert(text[text.len() - 1] == text.last());
        }
        if let Ok(after) = after_str(options, state, text) {
            assert(after.buffer =~= state.buffer + converted(options, text));
        }
    }
}

/// Behind a line break in a text, the line is as wide as what comes behind the line break.
proof fn lemma_width_behind_break(
    options: PrinterOptions,
    state: StateView,
    before: Seq<char>,
    line: Seq<char>,
)
    requires
        !line.contains('\n'),
    ensures
        after_str(options, state, before + seq!['\n'] + line) matches Ok(after)
            ==> after.line_width == text_columns(options, line),
    decreases line.len(),
{
    let text = before + seq!['\n'] + line;
    if line.len() == 0 {
        assert(text.last() == '\n');
    } else {
        assert(text.drop_last() =~= before + seq!['\n'] + line.drop_last());
        assert forall|i: int| 0 <= i < line.len() - 1 implies #[trigger] line.drop_last()[i]
            != '\n' by {
            assert(line.contains(line[i]));
        }
        assert(line.contains(line[line.len() - 1]));
        lemma_width_behind_break(options, state, before, line.drop_last());
        lemma_columns_before(options, line);
        lemma_glyph_columns(options, line.last());
    }
}

/// Printing a character a number of times succeeds as long as it can be counted.
proof fn lemma_repeated_supported(
    options: PrinterOptions,
    state: StateView,
    character: char,
    count: nat,
)
    requires
        character != '\n',
    ensures
        state.generated_column + count <= usize::MAX && state.line_width + count * columns(
            options,
            character,
        ) <= usize::MAX ==> after_repeated(options, state, character, count) is Ok,
        after_repeated(options, state, character, count) matches Ok(after) ==> after == (StateView {
            buffer: state.buffer + Seq::new(count, |i: int| character),
            generated_column: state.generated_column + count,
            line_width: state.line_width + count * columns(options, character),
            ..state
        }),
    decreases count,
{
    let width = columns(options, character);
    lemma_glyph_columns(options, character);
    if count == 0 {
        assert(count * width == 0) by (nonlinear_arith)
            requires
                count == 0,
        ;
        assert(state.buffer + Seq::new(0, |i: int| character) =~= state.buffer);
    } else {
        let fewer = (count - 1) as nat;
        lemma_repeated_supported(options, state, character, fewer);
        assert(fewer * width + width == count * width) by (nonlinear_arith)
            requires
                fewer == count - 1,
        ;
        if let Ok(after) = after_repeated(options, state, character, count) {
            assert(after.buffer =~= state.buffer + Seq::new(count, |i: int| character));
        }
    }
}

/// What printing the pending indention changes.
proof fn lemma_indent_printed(options: PrinterOptions, state: StateView)
    ensures
        state.generated_column + indent_text(options, state.pending_indent).len() <= usize::MAX
            && state.line_width + indent_columns(options, state.pending_indent) <= usize::MAX
            ==> after_indent(options, state) is Ok,
        after_indent(options, state) matches Ok(after) ==> after == (StateView {
            buffer: state.buffer + indent_text(options, state.pending_indent),
            generated_column: state.generated_column + indent_text(
                options,
                state.pending_indent,
            ).len(),
            line_width: state.line_width + indent_columns(options, state.pending_indent),
            pending_indent: Indention::Level(0),
            ..state
        }),
{
    let start = StateView { pending_indent: Indention::Level(0), ..state };
    let (character, per_level) = indent_char(options);
    let levels = state.pending_indent.levels() as nat;
    let spaces = state.pending_indent.spaces() as nat;
    let count = levels * per_level;
    lemma_repeated_supported(options, start, character, count);
    assert(count * columns(options, character) == levels * options.indent_width.columns)
        by (nonlinear_arith)
        requires
            count == levels * per_level,
            per_level * columns(options, character) == options.indent_width.columns,
    ;
    assert(levels * 1 == levels);
    assert(spaces * columns(options, ' ') == spaces) by (nonlinear_arith)
        requires
            columns(options, ' ') == 1,
    ;
    if let Ok(indented) = after_repeated(options, start, character, count) {
        lemma_repeated_supported(options, indented, ' ', spaces);
        if let Ok(after) = after_indent(options, state) {
            assert(after.buffer =~= state.buffer + indent_text(options, state.pending_indent));
        }
    }
}

/// The markers with another one, unless it is the last one already.
pub open spec fn noted(markers: Seq<SourceMarker>, source: int, dest: int) -> Seq<SourceMarker> {
    let marker = SourceMarker {
        source: TextSize { raw: source as u32 },
        dest: TextSize { raw: dest as u32 },
    };
    if markers.len() > 0 && markers.last() == marker {
        markers
    } else {
        markers.push(marker)
    }
}

/// Whether a text can be printed behind the state: all that is counted stays within its bounds.
pub open spec fn has_room_for_text(
    options: PrinterOptions,
    state: StateView,
    text: Seq<char>,
    source_position: Option<TextSize>,
) -> bool {
    let before = indent_text(options, state.pending_indent) + space_text(state.pending_space);
    &&& state.line_width >= 0
    &&& state.generated_column >= 0
    &&& state.generated_line + text.len() + 1 <= usize::MAX
    &&& state.generated_column + before.len() + text.len() <= usize::MAX
    &&& start_column(
        options,
        state.line_width,
        state.pending_indent,
        state.pending_space,
    ) + text_columns(options, text) <= usize::MAX
    &&& byte_len(state.buffer + before + converted(options, text)) <= u32::MAX
    &&& source_position matches Some(position) ==> position.raw + byte_len(text) <= u32::MAX
}

/// A text is printed behind the pending indention and the pending space, and nothing else is added to
/// the output. Both are pending no more. Its start and its end are in the source map.
pub proof fn lemma_text_printed(
    options: PrinterOptions,
    state: StateView,
    text: Seq<char>,
    source_position: Option<TextSize>,
)
    requires
        has_room_for_text(options, state, text, source_position),
    ensures
        after_text(options, state, text, source_position) matches Ok(after) && {
            let before = indent_text(options, state.pending_indent) + space_text(
                state.pending_space,
            );
            let start = match source_position {
                Some(position) => position.raw as int,
                None => state.source_position.raw as int,
            };
            let end = match source_position {
                Some(position) => start + byte_len(text),
                None => start,
            };
            let output = state.buffer + before + converted(options, text);
            &&& after == (StateView {
                buffer: output,
                source_markers: noted(
                    noted(
                        state.source_markers,
                        start,
                        byte_len(state.buffer + before) as int,
                    ),
                    end,
                    byte_len(output) as int,
                ),
                source_position: TextSize { raw: end as u32 },
                pending_indent: Indention::Level(0),
                pending_space: false,
                measured_group_fits: state.measured_group_fits && !text.contains('\n'),
                has_empty_line: state.has_empty_line && !state.pending_space && text.len() == 0,
                generated_line: after.generated_line,
                generated_column: after.generated_column,
                line_width: after.line_width,
                ..state
            })
            &&& after.generated_line <= state.generated_line + text.len()
            &&& !text.contains('\n') ==> after.generated_line == state.generated_line
            &&& 0 <= after.generated_column <= state.generated_column + before.len() + text.len()
            &&& after.line_width >= 0
            &&& !text.contains('\n') ==> after.line_width == start_column(
                options,
                state.line_width,
                state.pending_indent,
                state.pending_space,
            ) + text_columns(options, text)
        },
{
    let indent = indent_text(options, state.pending_indent);
    let space = space_text(state.pending_space);
    let printed = converted(options, text);
    lemma_columns_positive(options, text);
    lemma_indent_printed(options, state);
    assert(0 * options.indent_width.columns == 0);
    let indented = if state.pending_indent == Indention::Level(0) {
        state
    } else {
        after_indent(options, state)->Ok_0
    };
    if state.pending_indent == Indention::Level(0) {
        assert(indent =~= Seq::empty());
        assert(state.buffer + indent =~= state.buffer);
        assert(indented == state);
    }
    assert(indent_columns(options, state.pending_indent) >= 0) by (nonlinear_arith)
        requires
            indent_columns(options, state.pending_indent) == state.pending_indent.levels()
                * options.indent_width.columns + state.pending_indent.spaces(),
    ;
    assert(indented.buffer == state.buffer + indent);
    let blank = seq![' '];
    lemma_str_printed(options, indented, blank);
    assert(text_columns(options, blank) == 1) by {
        assert(blank.drop_first() =~= Seq::empty());
        assert(text_columns(options, blank.drop_first()) == 0);
    }
    assert(!blank.contains('\n'));
    assert(converted(options, blank) =~= blank) by {
        assert(blank.drop_last() =~= Seq::empty());
        assert(converted(options, blank.drop_last()) =~= Seq::empty());
    }
    let spaced = after_space(options, indented)->Ok_0;
    assert(spaced.buffer =~= state.buffer + (indent + space));
    assert(state.buffer + indent + space =~= state.buffer + (indent + space));
    lemma_byte_len_concat(state.buffer + (indent + space), printed);
    let placed = match source_position {
        Some(position) => StateView { source_position: position, ..spaced },
        None => spaced,
    };
    let marked = after_marker(placed)->Ok_0;
    lemma_str_printed(options, marked, text);
    let written = after_str(options, marked, text)->Ok_0;
    assert(written.buffer =~= state.buffer + (indent + space) + printed);
}

/// A text with a line break leaves a line that is as wide as what comes behind its last line break.
pub proof fn lemma_text_with_break_printed(
    options: PrinterOptions,
    state: StateView,
    before: Seq<char>,
    line: Seq<char>,
    source_position: Option<TextSize>,
)
    requires
        !line.contains('\n'),
    ensures
        after_text(
            options,
            state,
            before + seq!['\n'] + line,
            source_position,
        ) matches Ok(after) ==> after.line_width == text_columns(options, line),
{
    let text = before + seq!['\n'] + line;
    let indented = if state.pending_indent == Indention::Level(0) {
        Ok(state)
    } else {
        after_indent(options, state)
    };
    if let Ok(start) = indented {
        if let Ok(spaced) = after_space(options, start) {
            let placed = match source_position {
                Some(position) => StateView { source_position: position, ..spaced },
                None => spaced,
            };
            if let Ok(marked) = after_marker(placed) {
                lemma_width_behind_break(options, marked, before, line);
            }
        }
    }
}

/// The line endings are a line feed, a carriage return with a line feed, or a carriage return.
pub proof fn lemma_line_ending_chars()
    ensures
        LineEnding::Lf.chars() == seq!['\n'],
        LineEnding::Crlf.chars() == seq!['\r', '\n'],
        LineEnding::Cr.chars() == seq!['\r'],
{
}

} // verus!
