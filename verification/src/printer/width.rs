//! How many columns characters take.

use crate::options::PrinterOptions;
use unicode_width::UnicodeWidthChar;
use vstd::prelude::*;

verus! {

/// The displayed width of a character in columns, or `None` for a control character.
pub uninterp spec fn displayed_width(character: char) -> Option<usize>;

/// The displayed width of a character in columns, or `None` for a control character.
///
/// This is `UnicodeWidthChar::width` of the `unicode-width` crate. The name [`displayed_width`]
/// stands for its tables. Beside that, the control characters are those before the space and those
/// from the delete character up to the no-break space, and the other ASCII characters are one
/// column wide.
#[verifier::external_body]
fn width(character: char) -> (width: Option<usize>)
    ensures
        width == displayed_width(character),
        width is None <==> character < '\u{20}' || '\u{7f}' <= character < '\u{a0}',
        '\u{20}' <= character < '\u{7f}' ==> width == Some(1usize),
{
    character.width()
}

/// The displayed width of a character in columns, or `None` for a control character. ASCII
/// characters are one column wide.
pub open spec fn char_width(character: char) -> Option<usize> {
    if '\u{20}' <= character <= '\u{7e}' {
        Some(1)
    } else if '\u{a0}' <= character {
        displayed_width(character)
    } else {
        None
    }
}

/// The number of columns that a character other than a line break takes, where `displayed` is its
/// displayed width.
pub open spec fn columns_given(
    options: PrinterOptions,
    character: char,
    displayed: Option<usize>,
) -> int {
    if character == '\t' {
        options.indent_width.columns as int
    } else {
        match displayed {
            Some(width) => width as int,
            None => 0,
        }
    }
}

/// The number of columns that a character other than a line break takes.
pub open spec fn columns(options: PrinterOptions, character: char) -> int {
    columns_given(options, character, char_width(character))
}

/// The number of columns that a character other than a line break takes, where `displayed` is its
/// displayed width.
pub fn columns_of_width(
    options: &PrinterOptions,
    character: char,
    displayed: Option<usize>,
) -> (count: usize)
    ensures
        count == columns_given(*options, character, displayed),
{
    if character == '\t' {
        options.indent_width.value() as usize
    } else {
        match displayed {
            Some(width) => width,
            None => 0,
        }
    }
}

/// The number of columns that a character other than a line break takes.
pub fn char_columns(options: &PrinterOptions, character: char) -> (count: usize)
    ensures
        count == columns(*options, character),
{
    columns_of_width(options, character, width(character))
}

} // verus!
