//! Queues of elements that are still to be printed or measured.

use crate::format_element::{
    element_size, element_suffixes, group_counts, total_size, total_suffixes, FormatElement,
};
use crate::printer::stack::{Stack, StackedStack};
use crate::tag::{Tag, TagKind};
use vstd::prelude::*;

verus! {

/// Returns a slice that holds only the borrowed value.
///
/// `std::slice::from_ref` converts a reference to a value into a slice of length one, without
/// copying.
pub assume_specification<T>[ std::slice::from_ref::<T> ](value: &T) -> (slice: &[T])
    ensures
        slice@ == seq![*value],
;

/// The first element, looking into interned content.
pub open spec fn resolved(element: FormatElement) -> Option<FormatElement>
    decreases element,
{
    match element {
        FormatElement::Interned(content) => if content@.len() == 0 {
            None
        } else {
            resolved(content@[0])
        },
        _ => Some(element),
    }
}

/// The next element, looking into interned content.
pub open spec fn top_element(elements: Seq<FormatElement>) -> Option<FormatElement> {
    if elements.len() == 0 {
        None
    } else {
        resolved(elements[0])
    }
}

/// Whether the next element, looking into interned content, is the given tag.
pub open spec fn next_is(elements: Seq<FormatElement>, tag: Tag) -> bool {
    top_element(elements) == Some(FormatElement::Tag(tag))
}

/// Splits `elements` behind the tag that ends a part of the given kind, where `depth` parts of that
/// kind are open. Returns the elements before the tag, with interned content resolved, and those
/// behind it. Returns `None` if there is no such tag.
pub open spec fn split_content(
    elements: Seq<FormatElement>,
    kind: TagKind,
    depth: nat,
) -> Option<(Seq<FormatElement>, Seq<FormatElement>)>
    decreases total_size(elements),
{
    if elements.len() == 0 {
        None
    } else {
        let first = elements[0];
        let rest = elements.drop_first();
        proof {
            broadcast use group_counts;

            assert(total_size(elements) == element_size(first) + total_size(rest));
        }
        match first {
            FormatElement::Interned(content) => {
                proof {
                    broadcast use group_counts;

                    assert(total_size(content@ + rest) == total_size(content@) + total_size(rest));
                    assert(element_size(first) == 1 + total_size(content@));
                }
                split_content(content@ + rest, kind, depth)
            },
            FormatElement::Tag(tag) if tag.marks() == kind && tag.starts() => {
                if depth == usize::MAX {
                    None
                } else {
                    prepend(first, split_content(rest, kind, depth + 1))
                }
            },
            FormatElement::Tag(tag) if tag.marks() == kind => {
                if depth <= 1 {
                    Some((Seq::empty(), rest))
                } else {
                    prepend(first, split_content(rest, kind, (depth - 1) as nat))
                }
            },
            _ => prepend(first, split_content(rest, kind, depth)),
        }
    }
}

/// Whether `depth` open entries all end with the elements, looking into interned content. Entries
/// that start in between end first. Returns `None` if more entries are open than can be counted.
pub open spec fn entry_ends(elements: Seq<FormatElement>, depth: nat) -> Option<bool>
    decreases total_size(elements),
{
    if elements.len() == 0 {
        Some(false)
    } else {
        let rest = elements.drop_first();
        proof {
            lemma_pop_size(elements);
        }
        match elements[0] {
            FormatElement::Interned(content) => entry_ends(content@ + rest, depth),
            FormatElement::Tag(Tag::StartEntry) => if depth == usize::MAX {
                None
            } else {
                entry_ends(rest, depth + 1)
            },
            FormatElement::Tag(Tag::EndEntry) => if depth <= 1 {
                Some(true)
            } else {
                entry_ends(rest, (depth - 1) as nat)
            },
            _ => entry_ends(rest, depth),
        }
    }
}

/// The split with another element in front.
pub open spec fn prepend(
    element: FormatElement,
    split: Option<(Seq<FormatElement>, Seq<FormatElement>)>,
) -> Option<(Seq<FormatElement>, Seq<FormatElement>)> {
    match split {
        Some((content, rest)) => Some((seq![element] + content, rest)),
        None => None,
    }
}

/// The split with other elements in front.
spec fn prepend_all(
    elements: Seq<FormatElement>,
    split: Option<(Seq<FormatElement>, Seq<FormatElement>)>,
) -> Option<(Seq<FormatElement>, Seq<FormatElement>)> {
    match split {
        Some((content, rest)) => Some((elements + content, rest)),
        None => None,
    }
}

/// Splitting takes elements away and keeps the line suffixes in them.
pub proof fn lemma_split_content(elements: Seq<FormatElement>, kind: TagKind, depth: nat)
    ensures
        split_content(elements, kind, depth) matches Some((content, rest)) ==> {
            &&& total_size(rest) < total_size(elements)
            &&& total_suffixes(content) + total_suffixes(rest) <= total_suffixes(elements)
        },
    decreases total_size(elements),
{
    broadcast use group_counts;

    if elements.len() > 0 {
        let first = elements[0];
        let rest = elements.drop_first();
        match first {
            FormatElement::Interned(content) => {
                lemma_split_content(content@ + rest, kind, depth);
            },
            FormatElement::Tag(tag) if tag.marks() == kind && tag.starts() => {
                lemma_split_content(rest, kind, depth + 1);
                lemma_prepend_counts(first, split_content(rest, kind, depth + 1));
            },
            FormatElement::Tag(tag) if tag.marks() == kind => {
                if depth > 1 {
                    lemma_split_content(rest, kind, (depth - 1) as nat);
                    lemma_prepend_counts(first, split_content(rest, kind, (depth - 1) as nat));
                }
            },
            _ => {
                lemma_split_content(rest, kind, depth);
                lemma_prepend_counts(first, split_content(rest, kind, depth));
            },
        }
    }
}

/// Taking the first element, or putting its content in its place, leaves less.
pub proof fn lemma_pop_size(elements: Seq<FormatElement>)
    requires
        elements.len() > 0,
    ensures
        total_size(elements.drop_first()) < total_size(elements),
        elements[0] matches FormatElement::Interned(content) ==> total_size(
            content@ + elements.drop_first(),
        ) < total_size(elements),
{
    broadcast use group_counts;

    if let FormatElement::Interned(content) = elements[0] {
        assert(total_size(content@ + elements.drop_first()) == total_size(content@) + total_size(
            elements.drop_first(),
        ));
    }
}

proof fn lemma_prepend_counts(
    element: FormatElement,
    split: Option<(Seq<FormatElement>, Seq<FormatElement>)>,
)
    ensures
        split matches Some((content, rest)) ==> {
            &&& prepend(element, split) == Some((seq![element] + content, rest))
            &&& total_suffixes(seq![element] + content)
                == element_suffixes(element) + total_suffixes(content)
        },
{
    broadcast use group_counts;

    if let Some((content, rest)) = split {
        assert((seq![element] + content).drop_first() =~= content);
    }
}

/// The elements of the slices in the order in which they are taken: the last slice comes first.
pub open spec fn flattened(slices: Seq<&[FormatElement]>) -> Seq<FormatElement>
    decreases slices.len(),
{
    if slices.len() == 0 {
        Seq::empty()
    } else {
        slices.last()@ + flattened(slices.drop_last())
    }
}

/// A queue of elements. It holds slices of elements, so that adding many elements is cheap.
#[derive(Debug)]
pub struct Queue<S> {
    slices: S,
}

/// The queue of the elements to print.
pub type PrintQueue<'a> = Queue<Vec<&'a [FormatElement]>>;

/// The queue of the elements to measure, on top of the queue of the elements to print because no
/// elements should be removed from that while measuring.
pub type FitsQueue<'a, 'print> = Queue<StackedStack<'print, &'a [FormatElement]>>;

impl<'a, S: Stack<&'a [FormatElement]>> Queue<S> {
    /// The elements of the queue, the next one first.
    pub closed spec fn elements(&self) -> Seq<FormatElement> {
        flattened(self.slices.items())
    }

    /// Whether the queue is in a valid state: no slice is empty.
    pub closed spec fn valid(&self) -> bool {
        &&& self.slices.valid()
        &&& forall|i: int|
            0 <= i < self.slices.items().len() ==> (#[trigger] self.slices.items()[i])@.len() > 0
    }

    /// The slices of the queue, the next one last.
    pub closed spec fn slices(&self) -> Seq<&'a [FormatElement]> {
        self.slices.items()
    }

    /// Removes the next element and returns it.
    pub fn pop(&mut self) -> (element: Option<&'a FormatElement>)
        requires
            old(self).valid(),
        ensures
            final(self).valid(),
            match element {
                Some(element) => {
                    &&& old(self).elements().len() > 0
                    &&& *element == old(self).elements()[0]
                    &&& final(self).elements() == old(self).elements().drop_first()
                },
                None => {
                    &&& old(self).elements().len() == 0
                    &&& final(self).elements() == old(self).elements()
                },
            },
    {
        let ghost before = self.slices.items();
        match self.slices.pop() {
            Some(slice) => {
                assert(slice@ == before[before.len() - 1]@);
                let first: &'a FormatElement = &slice[0];
                if slice.len() > 1 {
                    let remaining: &'a [FormatElement] = vstd::slice::slice_subrange(
                        slice,
                        1,
                        slice.len(),
                    );
                    self.slices.push(remaining);
                    assert(self.slices.items().drop_last() =~= before.drop_last());
                }
                assert(self.elements() =~= flattened(before).drop_first());
                Some(first)
            },
            None => None,
        }
    }

    /// Returns the next element, looking into interned content.
    pub fn top(&self) -> (element: Option<&'a FormatElement>)
        requires
            self.valid(),
        ensures
            match element {
                Some(element) => top_element(self.elements()) == Some(*element),
                None => top_element(self.elements()) is None,
            },
    {
        match self.slices.top() {
            None => None,
            Some(slice) => {
                assert(slice@ == self.slices.items()[self.slices.items().len() - 1]@);
                assert(self.elements()[0] == slice@[0]);
                let mut top: &'a FormatElement = &slice[0];
                loop
                    invariant
                        resolved(*top) == top_element(self.elements()),
                    decreases *top,
                {
                    match top {
                        FormatElement::Interned(content) => {
                            if content.len() == 0 {
                                return None;
                            }
                            top = &content[0];
                        },
                        _ => {
                            return Some(top);
                        },
                    }
                }
            },
        }
    }

    /// Whether there are no elements left.
    pub fn is_empty(&self) -> (empty: bool)
        requires
            self.valid(),
        ensures
            empty == (self.elements().len() == 0),
    {
        proof {
            let slices = self.slices.items();
            if slices.len() > 0 {
                assert(slices[slices.len() - 1]@.len() > 0);
            }
        }
        self.slices.top().is_none()
    }

    /// Whether the next element, looking into interned content, is the start of an entry.
    pub fn starts_entry(&self) -> (starts: bool)
        requires
            self.valid(),
        ensures
            starts == next_is(self.elements(), Tag::StartEntry),
    {
        match self.top() {
            Some(FormatElement::Tag(Tag::StartEntry)) => true,
            _ => false,
        }
    }

    /// Queues a single element to process before the other elements in this queue.
    pub fn push(&mut self, element: &'a FormatElement)
        requires
            old(self).valid(),
        ensures
            final(self).valid(),
            final(self).elements() == seq![*element] + old(self).elements(),
    {
        self.extend_back(std::slice::from_ref(element));
    }

    /// Queues a slice of elements to process before the other elements in this queue.
    pub fn extend_back(&mut self, elements: &'a [FormatElement])
        requires
            old(self).valid(),
        ensures
            final(self).valid(),
            final(self).elements() == elements@ + old(self).elements(),
            final(self).slices() == (if elements@.len() == 0 {
                old(self).slices()
            } else {
                old(self).slices().push(elements)
            }),
    {
        if elements.len() > 0 {
            let ghost before = self.slices.items();
            self.slices.push(elements);
            assert(self.slices.items().drop_last() =~= before);
        }
        assert(self.elements() =~= elements@ + old(self).elements());
    }

    /// Removes the slice that was queued last, or what is left of it.
    pub fn pop_slice(&mut self) -> (elements: Option<&'a [FormatElement]>)
        requires
            old(self).valid(),
        ensures
            final(self).valid(),
            match elements {
                Some(elements) => {
                    &&& old(self).slices().len() > 0
                    &&& elements == old(self).slices().last()
                    &&& final(self).slices() == old(self).slices().drop_last()
                    &&& old(self).elements() == elements@ + final(self).elements()
                },
                None => {
                    &&& old(self).slices().len() == 0
                    &&& final(self).slices() == old(self).slices()
                    &&& final(self).elements() == old(self).elements()
                },
            },
    {
        self.slices.pop()
    }

    /// Removes the elements up to and with the tag that ends the part of the given kind, and
    /// returns those before it, with interned content resolved. Returns `None` if there is no such
    /// tag.
    pub fn take_content(&mut self, kind: TagKind) -> (content: Option<Vec<&'a FormatElement>>)
        requires
            old(self).valid(),
        ensures
            final(self).valid(),
            match content {
                Some(content) => split_content(old(self).elements(), kind, 1) == Some(
                    (content@.unref(), final(self).elements()),
                ),
                None => split_content(old(self).elements(), kind, 1) is None,
            },
    {
        let ghost before = self.elements();
        let mut content: Vec<&'a FormatElement> = Vec::new();
        let mut depth: usize = 1;

        proof {
            assert(content@.unref() =~= Seq::empty());
            if let Some((inner, rest)) = split_content(before, kind, 1) {
                assert(Seq::empty() + inner =~= inner);
            }
        }
        loop
            invariant
                self.valid(),
                depth >= 1,
                before == old(self).elements(),
                split_content(before, kind, 1) == prepend_all(
                    content@.unref(),
                    split_content(self.elements(), kind, depth as nat),
                ),
            decreases total_size(self.elements()),
        {
            let ghost turn = self.elements();
            let ghost taken = content@.unref();
            match self.pop() {
                None => {
                    return None;
                },
                Some(element) => {
                    if let FormatElement::Interned(interned) = element {
                        self.extend_back(interned.as_slice());
                        proof {
                            lemma_pop_size(turn);
                        }
                        continue ;
                    }
                    proof {
                        lemma_pop_size(turn);
                    }
                    if let FormatElement::Tag(tag) = element {
                        if tag.kind() == kind {
                            if tag.is_start() {
                                if depth == usize::MAX {
                                    return None;
                                }
                                depth = depth + 1;
                            } else if depth == 1 {
                                assert(taken + Seq::empty() =~= taken);
                                return Some(content);
                            } else {
                                depth = depth - 1;
                            }
                        }
                    }
                    content.push(element);
                    proof {
                        assert(content@.unref() =~= taken.push(*element));
                        if let Some((inner, rest)) = split_content(
                            self.elements(),
                            kind,
                            depth as nat,
                        ) {
                            assert(taken + (seq![*element] + inner) =~= taken.push(*element)
                                + inner);
                        }
                    }
                },
            }
        }
    }

    /// Whether `depth` open entries end with the elements of the queue. Returns `None` if more
    /// entries are open than can be counted.
    pub fn ends_entry(self, depth: usize) -> (ends: Option<bool>)
        requires
            self.valid(),
        ensures
            ends == entry_ends(self.elements(), depth as nat),
    {
        let mut queue = self;
        let mut open: usize = depth;
        loop
            invariant
                queue.valid(),
                entry_ends(queue.elements(), open as nat) == entry_ends(
                    self.elements(),
                    depth as nat,
                ),
            decreases total_size(queue.elements()),
        {
            let ghost turn = queue.elements();
            match queue.pop() {
                None => {
                    return Some(false);
                },
                Some(element) => {
                    proof {
                        lemma_pop_size(turn);
                    }
                    match element {
                        FormatElement::Interned(interned) => {
                            queue.extend_back(interned.as_slice());
                        },
                        FormatElement::Tag(Tag::StartEntry) => {
                            if open == usize::MAX {
                                return None;
                            }
                            open = open + 1;
                        },
                        FormatElement::Tag(Tag::EndEntry) => {
                            if open <= 1 {
                                return Some(true);
                            }
                            open = open - 1;
                        },
                        _ => {},
                    }
                },
            }
        }
    }

    /// Removes the elements up to and with the tag that ends the part of the given kind. Returns
    /// `false` if there is no such tag.
    pub fn skip_content(&mut self, kind: TagKind) -> (found: bool)
        requires
            old(self).valid(),
        ensures
            final(self).valid(),
            match split_content(old(self).elements(), kind, 1) {
                Some((_, rest)) => found && final(self).elements() == rest,
                None => !found,
            },
    {
        self.take_content(kind).is_some()
    }
}

impl<'a> Queue<Vec<&'a [FormatElement]>> {
    /// A queue with the given elements.
    pub fn new(elements: &'a [FormatElement]) -> (queue: Self)
        ensures
            queue.valid(),
            queue.elements() == elements@,
    {
        let mut queue = Queue { slices: Vec::new() };
        queue.extend_back(elements);
        assert(queue.elements() =~= elements@);
        queue
    }

    /// A queue on top of this one.
    pub fn stacked<'print>(&'print self) -> (queue: FitsQueue<'a, 'print>)
        requires
            self.valid(),
        ensures
            queue.valid(),
            queue.elements() == self.elements(),
    {
        Queue { slices: StackedStack::new(self.slices.as_slice()) }
    }
}

impl<'a, 'print> Queue<StackedStack<'print, &'a [FormatElement]>> {
    /// Another queue with the same elements. Changes to one do not affect the other.
    pub fn copied(&self) -> (queue: Self)
        requires
            self.valid(),
        ensures
            queue.valid(),
            queue.elements() == self.elements(),
    {
        Queue { slices: self.slices.copied() }
    }
}

} // verus!
