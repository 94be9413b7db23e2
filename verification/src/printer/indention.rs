//! How far a line is indented.

use crate::options::IndentStyle;
use crate::tag::Align;
use vstd::prelude::*;

verus! {

/// How far a line is indented.
#[derive(Clone, Copy, Debug, PartialEq, Eq, Structural)]
pub enum Indention {
    /// Indents the content by a number of levels, each of the indention sequence that the printer
    /// options specify.
    Level(u16),
    /// Indents the content by `level` levels and by the spaces of `align`.
    Align {
        level: u16,
        align: Align,
        /// The number of aligns that `align` adds up.
        align_count: u16,
    },
}

impl Indention {
    /// The number of levels.
    pub open spec fn levels(self) -> u16 {
        match self {
            Indention::Level(level) => level,
            Indention::Align { level, .. } => level,
        }
    }

    /// The number of spaces after the levels.
    pub open spec fn spaces(self) -> u8 {
        match self {
            Indention::Level(_) => 0,
            Indention::Align { align, .. } => align.spaces(),
        }
    }

    /// The number of levels after an indent by one more level. With tabs the align becomes a level
    /// of its own.
    pub open spec fn next_level(self, style: IndentStyle) -> int {
        match self {
            Indention::Level(level) => level + 1,
            Indention::Align { level, .. } => if style == IndentStyle::Tab {
                level + 2
            } else {
                level + 1
            },
        }
    }

    /// The indention after an indent by one more level. With spaces the align stays.
    pub open spec fn incremented(self, style: IndentStyle) -> Self {
        let level = self.next_level(style) as u16;
        match self {
            Indention::Align { align, align_count, .. } if style != IndentStyle::Tab => {
                Indention::Align { level, align, align_count }
            },
            _ => Indention::Level(level),
        }
    }

    /// Whether there is room for one more align.
    pub open spec fn has_room_to_align(self) -> bool {
        match self {
            Indention::Level(_) => true,
            Indention::Align { level, align_count, .. } => level < u16::MAX && align_count
                < u16::MAX,
        }
    }

    /// The indention after one more align by the spaces of `count`. An align on top of another one
    /// is a level deeper.
    pub open spec fn aligned(self, count: Align) -> Self {
        match self {
            Indention::Level(level) => Indention::Align { level, align: count, align_count: 1 },
            Indention::Align { level, align, align_count } => Indention::Align {
                level: (level + 1) as u16,
                align: align.plus(count),
                align_count: (align_count + 1) as u16,
            },
        }
    }

    /// Whether this is no indention.
    pub fn is_empty(&self) -> (empty: bool)
        ensures
            empty == (*self == Indention::Level(0)),
    {
        match self {
            Indention::Level(level) => *level == 0,
            Indention::Align { .. } => false,
        }
    }

    /// Creates a new indention level with a zero-indent.
    pub fn new() -> (indention: Self)
        ensures
            indention == Indention::Level(0),
    {
        Indention::Level(0)
    }

    /// Returns the indention level.
    pub fn level(&self) -> (level: u16)
        ensures
            level == self.levels(),
    {
        match self {
            Indention::Level(level) => *level,
            Indention::Align { level, .. } => *level,
        }
    }

    /// Returns the number of trailing align spaces or 0 if none.
    pub fn align(&self) -> (spaces: u8)
        ensures
            spaces == self.spaces(),
    {
        match self {
            Indention::Level(_) => 0,
            Indention::Align { align, .. } => align.count(),
        }
    }

    /// Increments the level by one.
    ///
    /// The behaviour depends on the indent style if there is an align:
    /// * **Tabs**: the align is converted into an indent. This results in the level increasing by
    ///   two: once for the align, once for the level increment.
    /// * **Spaces**: the level increases by one and the align stays unchanged.
    pub fn increment_level(self, indent_style: IndentStyle) -> (indention: Self)
        requires
            self.next_level(indent_style) <= u16::MAX,
        ensures
            indention == self.incremented(indent_style),
    {
        match self {
            Indention::Level(level) => Indention::Level(level + 1),
            Indention::Align { level, align, align_count } => if indent_style.is_tab() {
                Indention::Level(level + 2)
            } else {
                Indention::Align { level: level + 1, align, align_count }
            },
        }
    }

    /// Adds an align of `count` spaces to the current indention.
    ///
    /// It increments the level if there is an align already.
    pub fn set_align(self, count: Align) -> (indention: Self)
        requires
            self.has_room_to_align(),
        ensures
            indention == self.aligned(count),
    {
        match self {
            Indention::Level(level) => Indention::Align { level, align: count, align_count: 1 },
            Indention::Align { level, align, align_count } => Indention::Align {
                level: level + 1,
                align: align.saturating_add(count),
                align_count: align_count + 1,
            },
        }
    }

    /// Whether the level can be incremented.
    pub fn can_increment(&self, indent_style: IndentStyle) -> (possible: bool)
        ensures
            possible == (self.next_level(indent_style) <= u16::MAX),
    {
        match self {
            Indention::Level(level) => *level < u16::MAX,
            Indention::Align { level, .. } => if indent_style.is_tab() {
                *level < u16::MAX - 1
            } else {
                *level < u16::MAX
            },
        }
    }

    /// Whether another align can be added.
    pub fn can_align(&self) -> (possible: bool)
        ensures
            possible == self.has_room_to_align(),
    {
        match self {
            Indention::Level(_) => true,
            Indention::Align { level, align_count, .. } => *level < u16::MAX && *align_count
                < u16::MAX,
        }
    }
}

impl Default for Indention {
    fn default() -> (indention: Self)
        ensures
            indention == Indention::Level(0),
    {
        Self::new()
    }
}

} // verus!
