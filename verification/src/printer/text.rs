//! Printing text.

use crate::options::{IndentStyle, PrinterOptions};
use crate::printed::SourceMarker;
use crate::printer::Printer;
use crate::printer::indention::Indention;
use crate::printer::state::{Halt, StateView};
use crate::printer::width::{char_columns, columns};
use crate::text_size::{add_sizes, text_len, TextSize};
use vstd::prelude::*;
use vstd::string::StringExecFns;

verus! {

/// Appends a character to a string.
///
/// This is `String::push`, which appends the character to the end of the string.
#[verifier::external_body]
fn push_char(string: &mut String, character: char)
    ensures
        final(string)@ == old(string)@.push(character),
{
    string.push(character);
}

/// Whether `result` and the new state are what `expected` says.
pub open spec fn agrees(
    expected: Result<StateView, Halt>,
    result: Result<(), Halt>,
    state: StateView,
) -> bool {
    match result {
        Ok(()) => expected == Ok::<StateView, Halt>(state),
        Err(halt) => expected is Err && halt == Halt::Unsupported,
    }
}

/// The state after printing a character. A line break is printed as the line ending of the options.
pub open spec fn after_char(
    options: PrinterOptions,
    state: StateView,
    character: char,
) -> Result<StateView, Halt> {
    if character == '\n' {
        if state.generated_line == usize::MAX {
            Err(Halt::Unsupported)
        } else {
            Ok(
                StateView {
                    buffer: state.buffer + options.line_ending.chars(),
                    generated_line: state.generated_line + 1,
                    generated_column: 0,
                    line_width: 0,
                    measured_group_fits: false,
                    ..state
                },
            )
        }
    } else {
        if state.generated_column == usize::MAX || state.line_width + columns(options, character)
            > usize::MAX {
            Err(Halt::Unsupported)
        } else {
            Ok(
                StateView {
                    buffer: state.buffer.push(character),
                    generated_column: state.generated_column + 1,
                    line_width: state.line_width + columns(options, character),
                    ..state
                },
            )
        }
    }
}

/// The state after printing a character of a text: the current line is not empty.
pub open spec fn after_text_char(
    options: PrinterOptions,
    state: StateView,
    character: char,
) -> Result<StateView, Halt> {
    match after_char(options, state, character) {
        Ok(printed) => Ok(StateView { has_empty_line: false, ..printed }),
        Err(halt) => Err(halt),
    }
}

/// The state after printing the characters one after the other.
pub open spec fn after_str(
    options: PrinterOptions,
    state: StateView,
    content: Seq<char>,
) -> Result<StateView, Halt>
    decreases content.len(),
{
    if content.len() == 0 {
        Ok(state)
    } else {
        match after_str(options, state, content.drop_last()) {
            Ok(printed) => after_text_char(options, printed, content.last()),
            Err(halt) => Err(halt),
        }
    }
}

/// The state after printing the same character a number of times.
pub open spec fn after_repeated(
    options: PrinterOptions,
    state: StateView,
    character: char,
    count: nat,
) -> Result<StateView, Halt>
    decreases count,
{
    if count == 0 {
        Ok(state)
    } else {
        match after_repeated(options, state, character, (count - 1) as nat) {
            Ok(printed) => after_char(options, printed, character),
            Err(halt) => Err(halt),
        }
    }
}

/// The character that indents, and how many of them make up a level.
pub open spec fn indent_char(options: PrinterOptions) -> (char, nat) {
    match options.indent_style {
        IndentStyle::Tab => ('\t', 1),
        IndentStyle::Space => (' ', options.indent_width.columns as nat),
    }
}

/// The state after printing the pending indention: the levels, then the spaces of the align.
pub open spec fn after_indent(options: PrinterOptions, state: StateView) -> Result<
    StateView,
    Halt,
> {
    let indention = state.pending_indent;
    let start = StateView { pending_indent: Indention::Level(0), ..state };
    let (character, per_level) = indent_char(options);
    match after_repeated(options, start, character, indention.levels() as nat * per_level) {
        Ok(indented) => after_repeated(options, indented, ' ', indention.spaces() as nat),
        Err(halt) => Err(halt),
    }
}

/// The state after printing the pending space, if there is one.
pub open spec fn after_space(options: PrinterOptions, state: StateView) -> Result<
    StateView,
    Halt,
> {
    if state.pending_space {
        match after_str(options, state, seq![' ']) {
            Ok(printed) => Ok(StateView { pending_space: false, ..printed }),
            Err(halt) => Err(halt),
        }
    } else {
        Ok(state)
    }
}

/// The markers with another one, unless it repeats the last.
pub open spec fn with_marker(markers: Seq<SourceMarker>, marker: SourceMarker) -> Seq<
    SourceMarker,
> {
    if markers.len() > 0 && markers.last() == marker {
        markers
    } else {
        markers.push(marker)
    }
}

/// The state after recording that the end of the output comes from the current source position.
pub open spec fn after_marker(state: StateView) -> Result<StateView, Halt> {
    match text_len(state.buffer) {
        Some(dest) => Ok(
            StateView {
                source_markers: with_marker(
                    state.source_markers,
                    SourceMarker { source: state.source_position, dest },
                ),
                ..state
            },
        ),
        None => Err(Halt::Unsupported),
    }
}

/// The state after the source position moved behind `text`, if that comes from the source.
pub open spec fn after_source(
    state: StateView,
    text: Seq<char>,
    source_position: Option<TextSize>,
) -> Result<StateView, Halt> {
    match source_position {
        None => Ok(state),
        Some(_) => match text_len(text) {
            None => Err(Halt::Unsupported),
            Some(length) => match add_sizes(state.source_position, length) {
                None => Err(Halt::Unsupported),
                Some(position) => Ok(StateView { source_position: position, ..state }),
            },
        },
    }
}

/// The state after printing the text itself, between two markers.
pub open spec fn after_marked(
    options: PrinterOptions,
    state: StateView,
    text: Seq<char>,
    source_position: Option<TextSize>,
) -> Result<StateView, Halt> {
    let start = match source_position {
        Some(position) => StateView { source_position: position, ..state },
        None => state,
    };
    match after_marker(start) {
        Err(halt) => Err(halt),
        Ok(marked) => match after_str(options, marked, text) {
            Err(halt) => Err(halt),
            Ok(printed) => match after_source(printed, text, source_position) {
                Err(halt) => Err(halt),
                Ok(moved) => after_marker(moved),
            },
        },
    }
}

/// The state after printing a text: the pending indention, the pending space, then the text itself.
pub open spec fn after_text(
    options: PrinterOptions,
    state: StateView,
    text: Seq<char>,
    source_position: Option<TextSize>,
) -> Result<StateView, Halt> {
    let indented = if state.pending_indent == Indention::Level(0) {
        Ok(state)
    } else {
        after_indent(options, state)
    };
    match indented {
        Err(halt) => Err(halt),
        Ok(start) => match after_space(options, start) {
            Err(halt) => Err(halt),
            Ok(spaced) => after_marked(options, spaced, text, source_position),
        },
    }
}

impl<'a> Printer<'a> {
    /// Prints a text that comes from the given position of the source, if any.
    pub(crate) fn print_text(&mut self, text: &str, source_position: Option<TextSize>) -> (result:
        Result<(), Halt>)
        ensures
            final(self).options == old(self).options,
            agrees(
                after_text(old(self).options, old(self).state@, text@, source_position),
                result,
                final(self).state@,
            ),
    {
        if !self.state.pending_indent.is_empty() {
            self.print_indent()?;
        }
        // Print pending spaces

        if self.state.pending_space {
            proof {
                reveal_strlit(" ");
                assert(" "@ =~= seq![' ']);
            }
            self.print_str(" ")?;
            self.state.pending_space = false;
        }
        // Insert source map markers before and after the token
        //
        // If the token has source position information the start marker
        // will use the start position of the original token, and the end
        // marker will use that position + the text length of the token
        //
        // If the token has no source position (was created by the formatter)
        // both the start and end marker will use the last known position
        // in the input source (from state.source_position)

        if let Some(source) = source_position {
            self.state.source_position = source;
        }
        self.mark()?;

        self.print_str(text)?;

        if source_position.is_some() {
            match TextSize::of(text) {
                None => {
                    return Err(Halt::Unsupported);
                },
                Some(length) => match self.state.source_position.checked_add(length) {
                    None => {
                        return Err(Halt::Unsupported);
                    },
                    Some(position) => {
                        self.state.source_position = position;
                    },
                },
            }
        }
        self.mark()
    }

    /// Prints the pending indention.
    fn print_indent(&mut self) -> (result: Result<(), Halt>)
        ensures
            final(self).options == old(self).options,
            agrees(
                after_indent(old(self).options, old(self).state@),
                result,
                final(self).state@,
            ),
    {
        let (indent_char, repeat_count): (char, u8) = match self.options.indent_style {
            IndentStyle::Tab => ('\t', 1),
            IndentStyle::Space => (' ', self.options.indent_width.value()),
        };

        let indent = self.state.pending_indent;
        self.state.pending_indent = Indention::new();

        assert(0 <= indent.levels() * repeat_count <= 65535 * 255) by (nonlinear_arith)
            requires
                indent.levels() <= 65535,
                repeat_count <= 255,
        ;
        let total_indent_char_count: u32 = indent.level() as u32 * repeat_count as u32;

        self.print_repeated(indent_char, total_indent_char_count)?;
        self.print_repeated(' ', indent.align() as u32)
    }

    /// Prints a character a number of times.
    fn print_repeated(&mut self, character: char, count: u32) -> (result: Result<(), Halt>)
        ensures
            final(self).options == old(self).options,
            agrees(
                after_repeated(old(self).options, old(self).state@, character, count as nat),
                result,
                final(self).state@,
            ),
    {
        let ghost before = self.state@;
        let ghost options = self.options;
        for printed in 0..count
            invariant
                self.options == options,
                before == old(self).state@,
                options == old(self).options,
                after_repeated(options, before, character, printed as nat) == Ok::<StateView, Halt>(
                    self.state@,
                ),
        {
            match self.print_char(character) {
                Ok(()) => {},
                Err(halt) => {
                    proof {
                        lemma_repeated_halts(
                            options,
                            before,
                            character,
                            (printed + 1) as nat,
                            count as nat,
                            halt,
                        );
                    }
                    return Err(halt);
                },
            }
        }
        Ok(())
    }

    /// Records that the end of the output comes from the current source position.
    fn mark(&mut self) -> (result: Result<(), Halt>)
        ensures
            final(self).options == old(self).options,
            agrees(after_marker(old(self).state@), result, final(self).state@),
    {
        match TextSize::of(self.state.buffer.as_str()) {
            None => Err(Halt::Unsupported),
            Some(dest) => {
                self.push_marker(SourceMarker { source: self.state.source_position, dest });
                Ok(())
            },
        }
    }

    /// Adds a marker, unless it repeats the last one.
    fn push_marker(&mut self, marker: SourceMarker)
        ensures
            final(self).options == old(self).options,
            final(self).state@ == (StateView {
                source_markers: with_marker(old(self).state@.source_markers, marker),
                ..old(self).state@
            }),
    {
        let count: usize = self.state.source_markers.len();
        if count > 0 {
            if self.state.source_markers[count - 1] != marker {
                self.state.source_markers.push(marker);
            }
        } else {
            self.state.source_markers.push(marker);
        }
    }

    /// Prints the characters one after the other.
    pub(crate) fn print_str(&mut self, content: &str) -> (result: Result<(), Halt>)
        ensures
            final(self).options == old(self).options,
            agrees(
                after_str(old(self).options, old(self).state@, content@),
                result,
                final(self).state@,
            ),
    {
        let ghost before = self.state@;
        let ghost options = self.options;
        for character in iter: content.chars()
            invariant
                self.options == options,
                before == old(self).state@,
                options == old(self).options,
                iter.seq() == content@,
                after_str(options, before, content@.take(iter.index())) == Ok::<StateView, Halt>(
                    self.state@,
                ),
        {
            proof {
                assert(content@.take(iter.index() + 1).drop_last() =~= content@.take(
                    iter.index(),
                ));
            }
            match self.print_char(character) {
                Ok(()) => {
                    self.state.has_empty_line = false;
                },
                Err(halt) => {
                    proof {
                        lemma_str_halts(options, before, content@, iter.index() + 1, halt);
                    }
                    return Err(halt);
                },
            }
        }
        assert(content@.take(content@.len() as int) =~= content@);
        Ok(())
    }

    /// Prints a character.
    fn print_char(&mut self, character: char) -> (result: Result<(), Halt>)
        ensures
            final(self).options == old(self).options,
            agrees(
                after_char(old(self).options, old(self).state@, character),
                result,
                final(self).state@,
            ),
    {
        if character == '\n' {
            if self.state.generated_line == usize::MAX {
                return Err(Halt::Unsupported);
            }
            self.state.buffer.append(self.options.line_ending.as_str());

            self.state.generated_line = self.state.generated_line + 1;
            self.state.generated_column = 0;
            self.state.line_width = 0;
            // Fit's only tests if groups up to the first line break fit.
            // The next group must re-measure if it still fits.
            self.state.measured_group_fits = false;
        } else {
            let char_width: usize = char_columns(&self.options, character);
            if self.state.generated_column == usize::MAX || char_width > usize::MAX
                - self.state.line_width {
                return Err(Halt::Unsupported);
            }
            push_char(&mut self.state.buffer, character);
            self.state.generated_column = self.state.generated_column + 1;
            self.state.line_width = self.state.line_width + char_width;
        }
        Ok(())
    }
}

/// If printing stops at one of the characters, it does not go on behind it.
proof fn lemma_str_halts(
    options: PrinterOptions,
    state: StateView,
    content: Seq<char>,
    count: int,
    halt: Halt,
)
    requires
        0 <= count <= content.len(),
        after_str(options, state, content.take(count)) == Err::<StateView, Halt>(halt),
    ensures
        after_str(options, state, content) == Err::<StateView, Halt>(halt),
    decreases content.len(),
{
    if count == content.len() {
        assert(content.take(count) =~= content);
    } else {
        assert(content.drop_last().take(count) =~= content.take(count));
        lemma_str_halts(options, state, content.drop_last(), count, halt);
    }
}

/// If printing stops at one of the characters, it does not go on behind it.
proof fn lemma_repeated_halts(
    options: PrinterOptions,
    state: StateView,
    character: char,
    count: nat,
    total: nat,
    halt: Halt,
)
    requires
        count <= total,
        after_repeated(options, state, character, count) == Err::<StateView, Halt>(halt),
    ensures
        after_repeated(options, state, character, total) == Err::<StateView, Halt>(halt),
    decreases total,
{
    if count < total {
        lemma_repeated_halts(options, state, character, count, (total - 1) as nat, halt);
    }
}

} // verus!
