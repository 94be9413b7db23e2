//! The elements that documents are made of.

use crate::tag::Tag;
use crate::text_size::TextSize;
use std::rc::Rc;
use vstd::prelude::*;

verus! {

/// When a line break is printed.
#[derive(Clone, Copy, Debug, PartialEq, Eq, Structural)]
pub enum LineMode {
    /// A line break in expanded mode, nothing in flat mode.
    Soft,
    /// A line break in expanded mode, a space in flat mode.
    SoftOrSpace,
    /// Always a line break.
    Hard,
    /// Always a line break and an empty line.
    Empty,
}

/// Several ways to lay out the same content. The printer picks the first that fits.
#[derive(Debug, PartialEq, Eq)]
pub struct BestFittingElement {
    variants: Vec<Vec<FormatElement>>,
}

impl BestFittingElement {
    /// The variants, from the most flat to the most expanded.
    pub closed spec fn layouts(self) -> Seq<Vec<FormatElement>> {
        self.variants@
    }

    #[verifier::type_invariant]
    spec fn offers_a_choice(self) -> bool {
        self.variants@.len() >= 2
    }

    /// An element with the given variants, from the most flat to the most expanded. There must be
    /// at least two of them, otherwise there is nothing to choose from.
    pub fn from_vec(variants: Vec<Vec<FormatElement>>) -> (element: Self)
        requires
            variants@.len() >= 2,
        ensures
            element.layouts() == variants@,
    {
        BestFittingElement { variants }
    }

    /// The variants, from the most flat to the most expanded.
    pub fn variants(&self) -> (variants: &[Vec<FormatElement>])
        ensures
            variants@ == self.layouts(),
            variants@.len() >= 2,
    {
        proof {
            use_type_invariant(self);
        }
        self.variants.as_slice()
    }

    /// The variant that takes the fewest lines.
    pub fn most_flat(&self) -> (variant: &[FormatElement])
        ensures
            self.layouts().len() >= 2,
            variant@ == self.layouts().first()@,
    {
        proof {
            use_type_invariant(self);
        }
        self.variants[0].as_slice()
    }

    /// The variant that takes the most lines.
    pub fn most_expanded(&self) -> (variant: &[FormatElement])
        ensures
            self.layouts().len() >= 2,
            variant@ == self.layouts().last()@,
    {
        proof {
            use_type_invariant(self);
        }
        self.variants[self.variants.len() - 1].as_slice()
    }
}

/// A part of a document.
#[allow(inconsistent_fields)]
#[derive(Debug, PartialEq, Eq)]
pub enum FormatElement {
    /// A space, unless at the start of a line.
    Space,
    /// A space that always counts as one column when measuring.
    HardSpace,
    /// A line break.
    Line(LineMode),
    /// Forces the enclosing group to be expanded.
    ExpandParent,
    /// Text that is known at compile time.
    StaticText { text: &'static str },
    /// Text that comes from the given position of the source.
    DynamicText { text: String, source_position: TextSize },
    /// The text of a token at the given position of the source.
    LocatedTokenText { slice: String, source_position: TextSize },
    /// Prints the pending line suffixes.
    LineSuffixBoundary,
    /// Content that may be shared with other parts of the document.
    Interned(Rc<Vec<FormatElement>>),
    /// Several ways to lay out the same content.
    BestFitting(BestFittingElement),
    /// The start or the end of a part of the document.
    Tag(Tag),
}

/// The number of elements that `element` is made of, with those of all its variants.
pub closed spec fn element_size(element: FormatElement) -> nat
    decreases element,
{
    match element {
        FormatElement::Interned(content) => 1 + total_size(content@),
        FormatElement::BestFitting(best_fitting) => 1 + variants_size(best_fitting.variants@),
        _ => 1,
    }
}

/// The number of elements that `elements` are made of, with those of all their variants.
pub closed spec fn total_size(elements: Seq<FormatElement>) -> nat
    decreases elements,
{
    if elements.len() == 0 {
        0
    } else {
        element_size(elements[0]) + total_size(elements.drop_first())
    }
}

/// The number of elements that all variants are made of.
closed spec fn variants_size(variants: Seq<Vec<FormatElement>>) -> nat
    decreases variants,
{
    if variants.len() == 0 {
        0
    } else {
        total_size(variants[0]@) + variants_size(variants.drop_first())
    }
}

/// The number of line suffixes that start in `element`, with those of all its variants.
pub closed spec fn element_suffixes(element: FormatElement) -> nat
    decreases element,
{
    match element {
        FormatElement::Interned(content) => total_suffixes(content@),
        FormatElement::BestFitting(best_fitting) => variants_suffixes(best_fitting.variants@),
        FormatElement::Tag(Tag::StartLineSuffix) => 1,
        _ => 0,
    }
}

/// The number of line suffixes that start in `elements`, with those of all their variants.
pub closed spec fn total_suffixes(elements: Seq<FormatElement>) -> nat
    decreases elements,
{
    if elements.len() == 0 {
        0
    } else {
        element_suffixes(elements[0]) + total_suffixes(elements.drop_first())
    }
}

/// The number of line suffixes that start in any variant.
closed spec fn variants_suffixes(variants: Seq<Vec<FormatElement>>) -> nat
    decreases variants,
{
    if variants.len() == 0 {
        0
    } else {
        total_suffixes(variants[0]@) + variants_suffixes(variants.drop_first())
    }
}

/// What the counts say of single elements.
pub broadcast proof fn lemma_element_counts(element: FormatElement)
    ensures
        #![trigger element_size(element)]
        #![trigger element_suffixes(element)]
        element_size(element) >= 1,
        element matches FormatElement::Interned(content) ==> {
            &&& element_size(element) == 1 + total_size(content@)
            &&& element_suffixes(element) == total_suffixes(content@)
        },
        element == FormatElement::Tag(Tag::StartLineSuffix) ==> element_suffixes(element) == 1,
        !(element is Interned) && !(element is BestFitting) ==> element_size(element) == 1,
        !(element is Interned) && !(element is BestFitting) && element != FormatElement::Tag(
            Tag::StartLineSuffix,
        ) ==> element_suffixes(element) == 0,
{
}

/// What the counts say of the first element.
pub broadcast proof fn lemma_first_counts(elements: Seq<FormatElement>)
    ensures
        #![trigger total_size(elements)]
        #![trigger total_suffixes(elements)]
        elements.len() == 0 ==> total_size(elements) == 0 && total_suffixes(elements) == 0,
        elements.len() > 0 ==> {
            &&& total_size(elements) == element_size(elements[0]) + total_size(
                elements.drop_first(),
            )
            &&& total_suffixes(elements) == element_suffixes(elements[0]) + total_suffixes(
                elements.drop_first(),
            )
        },
{
}

/// The counts of two sequences add up.
pub broadcast proof fn lemma_concat_counts(left: Seq<FormatElement>, right: Seq<FormatElement>)
    ensures
        #![trigger total_size(left + right)]
        #![trigger total_suffixes(left + right)]
        total_size(left + right) == total_size(left) + total_size(right),
        total_suffixes(left + right) == total_suffixes(left) + total_suffixes(right),
    decreases left.len(),
{
    if left.len() == 0 {
        assert(left + right =~= right);
    } else {
        assert((left + right).drop_first() =~= left.drop_first() + right);
        lemma_concat_counts(left.drop_first(), right);
    }
}

/// No variant counts more than the whole element.
pub broadcast proof fn lemma_variant_counts(best_fitting: BestFittingElement, index: int)
    requires
        0 <= index < best_fitting.layouts().len(),
    ensures
        #![trigger best_fitting.layouts()[index]]
        total_size(best_fitting.layouts()[index]@) < element_size(
            FormatElement::BestFitting(best_fitting),
        ),
        total_suffixes(best_fitting.layouts()[index]@) <= element_suffixes(
            FormatElement::BestFitting(best_fitting),
        ),
{
    lemma_variant_counts_from(best_fitting.variants@, index);
}

proof fn lemma_variant_counts_from(variants: Seq<Vec<FormatElement>>, index: int)
    requires
        0 <= index < variants.len(),
    ensures
        total_size(variants[index]@) <= variants_size(variants),
        total_suffixes(variants[index]@) <= variants_suffixes(variants),
    decreases variants.len(),
{
    if index > 0 {
        lemma_variant_counts_from(variants.drop_first(), index - 1);
    }
}

pub broadcast group group_counts {
    lemma_element_counts,
    lemma_first_counts,
    lemma_concat_counts,
    lemma_variant_counts,
}

/// A document, ready to be printed.
#[derive(Debug, PartialEq, Eq)]
pub struct Document {
    pub elements: Vec<FormatElement>,
}

impl View for Document {
    type V = Seq<FormatElement>;

    open spec fn view(&self) -> Seq<FormatElement> {
        self.elements@
    }
}

impl Document {
    /// The document made of the given elements.
    pub fn new(elements: Vec<FormatElement>) -> (document: Self)
        ensures
            document@ == elements@,
    {
        Document { elements }
    }

    /// The elements of the document.
    pub fn as_slice(&self) -> (elements: &[FormatElement])
        ensures
            elements@ == self@,
    {
        self.elements.as_slice()
    }
}

} // verus!
