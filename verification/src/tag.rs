//! Tags that mark where a part of a document starts and ends.

use crate::text_size::TextSize;
use vstd::prelude::*;

verus! {

/// How the content of a group is laid out.
#[derive(Clone, Copy, Debug, PartialEq, Eq, Structural)]
pub enum PrintMode {
    /// On a single line: soft line breaks are left out.
    Flat,
    /// On multiple lines: soft line breaks are printed.
    Expanded,
}

impl PrintMode {
    /// Whether this is the flat mode.
    pub fn is_flat(&self) -> (flat: bool)
        ensures
            flat == (*self == PrintMode::Flat),
    {
        match self {
            PrintMode::Flat => true,
            PrintMode::Expanded => false,
        }
    }
}

/// Identifies a group, so that other parts of the document can refer to it.
#[derive(Clone, Copy, Debug, PartialEq, Eq, Structural)]
pub struct GroupId {
    pub value: u32,
}

/// Identifies the label of a labelled part of a document.
#[derive(Clone, Copy, Debug, PartialEq, Eq, Structural)]
pub struct LabelId {
    pub value: u64,
}

/// Whether a group may be printed on a single line.
#[derive(Clone, Copy, Debug, PartialEq, Eq, Structural)]
pub enum GroupMode {
    /// The group is printed flat if its content fits.
    Flat,
    /// The group was created in expanded mode.
    Expand,
    /// The group is expanded because its content has a hard line break.
    Propagated,
}

impl GroupMode {
    /// Whether the group may be printed on a single line.
    pub fn is_flat(&self) -> (flat: bool)
        ensures
            flat == (*self == GroupMode::Flat),
    {
        match self {
            GroupMode::Flat => true,
            _ => false,
        }
    }
}

/// A part of a document that is printed on a single line if it fits.
#[derive(Clone, Copy, Debug, PartialEq, Eq, Structural)]
pub struct Group {
    pub id: Option<GroupId>,
    pub mode: GroupMode,
}

impl Group {
    /// A flat group without an id.
    pub fn new() -> (group: Self)
        ensures
            group == (Group { id: None, mode: GroupMode::Flat }),
    {
        Group { id: None, mode: GroupMode::Flat }
    }

    /// This group with another id.
    pub fn with_id(self, id: Option<GroupId>) -> (group: Self)
        ensures
            group == (Group { id, ..self }),
    {
        Group { id, mode: self.mode }
    }

    /// This group with another mode.
    pub fn with_mode(self, mode: GroupMode) -> (group: Self)
        ensures
            group == (Group { mode, ..self }),
    {
        Group { id: self.id, mode }
    }
}

/// When conditional content is printed: if the group is printed in the mode.
#[derive(Clone, Copy, Debug, PartialEq, Eq, Structural)]
pub struct Condition {
    pub mode: PrintMode,
    /// The group to look at, or `None` for the enclosing group.
    pub group_id: Option<GroupId>,
}

/// How far a dedent goes.
#[derive(Clone, Copy, Debug, PartialEq, Eq, Structural)]
pub enum DedentMode {
    /// One level.
    Level,
    /// To the start of the line.
    Root,
}

/// Why a part of a document is printed as it is in the source.
#[derive(Clone, Copy, Debug, PartialEq, Eq, Structural)]
pub enum VerbatimKind {
    Bogus,
    Suppressed,
    Verbatim {
        /// The length of the formatted node.
        length: TextSize,
    },
}

/// A number of spaces to align by. There is at least one.
#[derive(Clone, Copy, Debug, PartialEq, Eq, Structural)]
pub struct Align {
    count: u8,
}

impl Align {
    /// The number of spaces.
    pub closed spec fn spaces(self) -> u8 {
        self.count
    }

    #[verifier::type_invariant]
    spec fn holds_spaces(self) -> bool {
        self.count > 0
    }

    /// An alignment by `count` spaces, or `None` for no spaces.
    pub fn new(count: u8) -> (align: Option<Self>)
        ensures
            count == 0 ==> align is None,
            count > 0 ==> align is Some && align->0.spaces() == count,
    {
        if count == 0 {
            None
        } else {
            Some(Align { count })
        }
    }

    /// The number of spaces.
    pub fn count(&self) -> (count: u8)
        ensures
            count == self.spaces(),
            count > 0,
    {
        proof {
            use_type_invariant(self);
        }
        self.count
    }

    /// The alignment by the spaces of both, or by as many spaces as there can be.
    pub fn saturating_add(self, other: Self) -> (align: Self)
        ensures
            align == self.plus(other),
            align.spaces() == (if self.spaces() + other.spaces() <= u8::MAX {
                self.spaces() + other.spaces()
            } else {
                u8::MAX as int
            }),
    {
        proof {
            use_type_invariant(&self);
        }
        Align { count: self.count.saturating_add(other.count) }
    }

    /// The alignment by the spaces of both, or by as many spaces as there can be.
    pub closed spec fn plus(self, other: Self) -> Self {
        if self.count + other.count <= u8::MAX {
            Align { count: (self.count + other.count) as u8 }
        } else {
            Align { count: u8::MAX }
        }
    }

    /// Alignments add up their spaces, up to the largest count.
    pub proof fn lemma_plus(self, other: Self)
        ensures
            self.spaces() + other.spaces() <= u8::MAX ==> self.plus(other).spaces()
                == self.spaces() + other.spaces(),
            self.spaces() + other.spaces() > u8::MAX ==> self.plus(other).spaces() == u8::MAX,
    {
    }
}

/// Marks the start or the end of a part of a document.
#[derive(Clone, Copy, Debug, PartialEq, Eq, Structural)]
pub enum Tag {
    /// Indents the content by one level.
    StartIndent,
    EndIndent,
    /// Aligns the content by a number of spaces.
    StartAlign(Align),
    EndAlign,
    /// Reduces the indention of the content.
    StartDedent(DedentMode),
    EndDedent(DedentMode),
    /// Prints the content on a single line if it fits.
    StartGroup(Group),
    EndGroup,
    /// Prints the content only if a group is printed in a given mode.
    StartConditionalContent(Condition),
    EndConditionalContent,
    /// Indents the content if the group is expanded.
    StartIndentIfGroupBreaks(GroupId),
    EndIndentIfGroupBreaks(GroupId),
    /// Fits as many of the entries as possible on each line.
    StartFill,
    EndFill,
    /// An entry of a fill or a variant of a best fitting element.
    StartEntry,
    EndEntry,
    /// Delays the content until the next line break.
    StartLineSuffix,
    EndLineSuffix,
    /// The content is printed as in the source.
    StartVerbatim(VerbatimKind),
    EndVerbatim,
    /// The content has a label.
    StartLabelled(LabelId),
    EndLabelled,
}

/// What a tag marks, without the data it carries.
#[derive(Clone, Copy, Debug, PartialEq, Eq, Structural)]
pub enum TagKind {
    Indent,
    Align,
    Dedent,
    Group,
    ConditionalContent,
    IndentIfGroupBreaks,
    Fill,
    Entry,
    LineSuffix,
    Verbatim,
    Labelled,
}

impl Tag {
    /// Whether the tag marks the start of a part.
    pub open spec fn starts(self) -> bool {
        match self {
            Tag::StartIndent
            | Tag::StartAlign(_)
            | Tag::StartDedent(_)
            | Tag::StartGroup(_)
            | Tag::StartConditionalContent(_)
            | Tag::StartIndentIfGroupBreaks(_)
            | Tag::StartFill
            | Tag::StartEntry
            | Tag::StartLineSuffix
            | Tag::StartVerbatim(_)
            | Tag::StartLabelled(_) => true,
            _ => false,
        }
    }

    /// What the tag marks.
    pub open spec fn marks(self) -> TagKind {
        match self {
            Tag::StartIndent | Tag::EndIndent => TagKind::Indent,
            Tag::StartAlign(_) | Tag::EndAlign => TagKind::Align,
            Tag::StartDedent(_) | Tag::EndDedent(_) => TagKind::Dedent,
            Tag::StartGroup(_) | Tag::EndGroup => TagKind::Group,
            Tag::StartConditionalContent(_) | Tag::EndConditionalContent =>
                TagKind::ConditionalContent,
            Tag::StartIndentIfGroupBreaks(_) | Tag::EndIndentIfGroupBreaks(_) =>
                TagKind::IndentIfGroupBreaks,
            Tag::StartFill | Tag::EndFill => TagKind::Fill,
            Tag::StartEntry | Tag::EndEntry => TagKind::Entry,
            Tag::StartLineSuffix | Tag::EndLineSuffix => TagKind::LineSuffix,
            Tag::StartVerbatim(_) | Tag::EndVerbatim => TagKind::Verbatim,
            Tag::StartLabelled(_) | Tag::EndLabelled => TagKind::Labelled,
        }
    }

    /// Whether the tag marks the start of a part.
    pub fn is_start(&self) -> (start: bool)
        ensures
            start == self.starts(),
    {
        match self {
            Tag::StartIndent
            | Tag::StartAlign(_)
            | Tag::StartDedent(_)
            | Tag::StartGroup(_)
            | Tag::StartConditionalContent(_)
            | Tag::StartIndentIfGroupBreaks(_)
            | Tag::StartFill
            | Tag::StartEntry
            | Tag::StartLineSuffix
            | Tag::StartVerbatim(_)
            | Tag::StartLabelled(_) => true,
            _ => false,
        }
    }

    /// What the tag marks.
    pub fn kind(&self) -> (kind: TagKind)
        ensures
            kind == self.marks(),
    {
        match self {
            Tag::StartIndent | Tag::EndIndent => TagKind::Indent,
            Tag::StartAlign(_) | Tag::EndAlign => TagKind::Align,
            Tag::StartDedent(_) | Tag::EndDedent(_) => TagKind::Dedent,
            Tag::StartGroup(_) | Tag::EndGroup => TagKind::Group,
            Tag::StartConditionalContent(_) | Tag::EndConditionalContent =>
                TagKind::ConditionalContent,
            Tag::StartIndentIfGroupBreaks(_) | Tag::EndIndentIfGroupBreaks(_) =>
                TagKind::IndentIfGroupBreaks,
            Tag::StartFill | Tag::EndFill => TagKind::Fill,
            Tag::StartEntry | Tag::EndEntry => TagKind::Entry,
            Tag::StartLineSuffix | Tag::EndLineSuffix => TagKind::LineSuffix,
            Tag::StartVerbatim(_) | Tag::EndVerbatim => TagKind::Verbatim,
            Tag::StartLabelled(_) | Tag::EndLabelled => TagKind::Labelled,
        }
    }
}

} // verus!
