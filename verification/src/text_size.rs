//! Offsets into UTF-8 text.

use vstd::prelude::*;
use vstd::utf8::encode_utf8;

verus! {

/// The number of bytes that `text` takes in UTF-8.
pub open spec fn byte_len(text: Seq<char>) -> nat {
    encode_utf8(text).len()
}

/// An offset into text, or a length of text, in bytes.
#[derive(Clone, Copy, Debug, Default, PartialEq, Eq, Structural)]
pub struct TextSize {
    pub raw: u32,
}

impl TextSize {
    /// The size of `raw` bytes.
    pub fn new(raw: u32) -> (size: Self)
        ensures
            size.raw == raw,
    {
        TextSize { raw }
    }

    /// The length of `text`, or `None` if it does not fit into a `TextSize`.
    pub fn of(text: &str) -> (size: Option<Self>)
        ensures
            size == text_len(text@),
    {
        let length: usize = text.as_bytes().len();
        if length as u64 <= u32::MAX as u64 {
            Some(TextSize { raw: length as u32 })
        } else {
            None
        }
    }

    /// The sum of both sizes, or `None` if it does not fit into a `TextSize`.
    pub fn checked_add(self, other: Self) -> (size: Option<Self>)
        ensures
            size == add_sizes(self, other),
    {
        match self.raw.checked_add(other.raw) {
            Some(raw) => Some(TextSize { raw }),
            None => None,
        }
    }
}

/// The length of `text`, or `None` if it does not fit into a `TextSize`.
pub open spec fn text_len(text: Seq<char>) -> Option<TextSize> {
    if byte_len(text) <= u32::MAX {
        Some(TextSize { raw: byte_len(text) as u32 })
    } else {
        None
    }
}

/// The sum of both sizes, or `None` if it does not fit into a `TextSize`.
pub open spec fn add_sizes(left: TextSize, right: TextSize) -> Option<TextSize> {
    if left.raw + right.raw <= u32::MAX {
        Some(TextSize { raw: (left.raw + right.raw) as u32 })
    } else {
        None
    }
}

/// A range of text.
#[derive(Clone, Copy, Debug, PartialEq, Eq, Structural)]
pub struct TextRange {
    pub start: TextSize,
    pub end: TextSize,
}

impl TextRange {
    /// The range that starts at `offset` and has the given length, or `None` if its end does not
    /// fit into a `TextSize`.
    pub fn at(offset: TextSize, length: TextSize) -> (range: Option<Self>)
        ensures
            range == range_at(offset, length),
    {
        match offset.checked_add(length) {
            Some(end) => Some(TextRange { start: offset, end }),
            None => None,
        }
    }
}

/// The range that starts at `offset` and has the given length, or `None` if its end does not fit
/// into a `TextSize`.
pub open spec fn range_at(offset: TextSize, length: TextSize) -> Option<TextRange> {
    match add_sizes(offset, length) {
        Some(end) => Some(TextRange { start: offset, end }),
        None => None,
    }
}

} // verus!
