//! The line suffixes that wait for the next line break.

use crate::format_element::FormatElement;
use crate::printer::call_stack::PrintElementArgs;
use vstd::prelude::*;

verus! {

/// An entry of the pending line suffixes.
#[derive(Clone, Copy, Debug)]
pub enum LineSuffixEntry<'a> {
    /// An element of a line suffix.
    Suffix(&'a FormatElement),
    /// The end of a line suffix, with the arguments to print it with.
    Args(PrintElementArgs),
}

/// An entry of the pending line suffixes.
pub enum SuffixEntry {
    /// An element of a line suffix.
    Suffix(FormatElement),
    /// The end of a line suffix, with the arguments to print it with.
    Args(PrintElementArgs),
}

impl<'a> View for LineSuffixEntry<'a> {
    type V = SuffixEntry;

    open spec fn view(&self) -> SuffixEntry {
        match *self {
            LineSuffixEntry::Suffix(element) => SuffixEntry::Suffix(*element),
            LineSuffixEntry::Args(args) => SuffixEntry::Args(args),
        }
    }
}

/// The entries of a line suffix with the given content.
pub open spec fn suffix_entries(content: Seq<FormatElement>, args: PrintElementArgs) -> Seq<
    SuffixEntry,
> {
    content.map_values(|element: FormatElement| SuffixEntry::Suffix(element)).push(
        SuffixEntry::Args(args),
    )
}

/// The line suffixes that wait for the next line break.
#[derive(Debug)]
pub struct LineSuffixes<'a> {
    suffixes: Vec<LineSuffixEntry<'a>>,
}

impl<'a> View for LineSuffixes<'a> {
    type V = Seq<SuffixEntry>;

    closed spec fn view(&self) -> Seq<SuffixEntry> {
        views(self.suffixes@)
    }
}

/// The entries, without the borrows.
pub open spec fn views<'a>(entries: Seq<LineSuffixEntry<'a>>) -> Seq<SuffixEntry> {
    entries.map_values(|entry: LineSuffixEntry<'a>| entry@)
}

impl<'a> LineSuffixes<'a> {
    /// Nothing is pending.
    pub fn new() -> (suffixes: Self)
        ensures
            suffixes@ == Seq::<SuffixEntry>::empty(),
    {
        let suffixes = LineSuffixes { suffixes: Vec::new() };
        assert(suffixes@ =~= Seq::<SuffixEntry>::empty());
        suffixes
    }

    /// Adds a line suffix with the given content.
    pub fn extend(&mut self, args: PrintElementArgs, elements: Vec<&'a FormatElement>)
        ensures
            final(self)@ == old(self)@ + suffix_entries(elements@.unref(), args),
    {
        let ghost before = self@;
        let count: usize = elements.len();
        for index in 0..count
            invariant
                count == elements@.len(),
                self@ == before + elements@.unref().take(index as int).map_values(
                    |element: FormatElement| SuffixEntry::Suffix(element),
                ),
        {
            let ghost turn = self@;
            self.suffixes.push(LineSuffixEntry::Suffix(elements[index]));
            assert(self@ =~= turn.push(SuffixEntry::Suffix(*elements[index as int])));
            assert(self@ =~= before + elements@.unref().take(index + 1).map_values(
                |element: FormatElement| SuffixEntry::Suffix(element),
            ));
        }
        let ghost turn = self@;
        self.suffixes.push(LineSuffixEntry::Args(args));
        assert(self@ =~= turn.push(SuffixEntry::Args(args)));
        assert(elements@.unref().take(count as int) =~= elements@.unref());
        assert(self@ =~= before + suffix_entries(elements@.unref(), args));
    }

    /// Takes all the pending line suffixes.
    pub fn take_pending(&mut self) -> (entries: Vec<LineSuffixEntry<'a>>)
        ensures
            views(entries@) == old(self)@,
            final(self)@ == Seq::<SuffixEntry>::empty(),
    {
        let mut entries: Vec<LineSuffixEntry<'a>> = Vec::new();
        std::mem::swap(&mut entries, &mut self.suffixes);
        assert(self@ =~= Seq::<SuffixEntry>::empty());
        entries
    }

    /// Whether there are pending line suffixes.
    pub fn has_pending(&self) -> (pending: bool)
        ensures
            pending == (self@.len() > 0),
    {
        self.suffixes.len() > 0
    }
}

} // verus!
