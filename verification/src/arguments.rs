//! Values that can be formatted, and sequences of them.

use crate::diagnostics::{FormatError, FormatResult};
use crate::format_element::FormatElement;
use vstd::prelude::*;
use vstd::std_specs::convert::FromSpecImpl;

verus! {

/// What has been formatted so far.
#[verifier::reject_recursive_types(Context)]
#[verifier::ext_equal]
pub struct FormatterView<Context> {
    pub elements: Seq<FormatElement>,
    pub context: Context,
}

/// Collects the elements of what is formatted.
#[verifier::reject_recursive_types(Context)]
pub struct Formatter<Context> {
    elements: Vec<FormatElement>,
    context: Context,
}

impl<Context> View for Formatter<Context> {
    type V = FormatterView<Context>;

    closed spec fn view(&self) -> FormatterView<Context> {
        FormatterView { elements: self.elements@, context: self.context }
    }
}

impl<Context> Formatter<Context> {
    /// A formatter that has not formatted anything.
    pub fn new(context: Context) -> (formatter: Self)
        ensures
            formatter@.elements == Seq::<FormatElement>::empty(),
            formatter@.context == context,
    {
        Formatter { elements: Vec::new(), context }
    }

    /// The context that is formatted in.
    pub fn context(&self) -> (context: &Context)
        ensures
            *context == self@.context,
    {
        &self.context
    }

    /// Adds an element.
    pub fn write_element(&mut self, element: FormatElement)
        ensures
            final(self)@ == (FormatterView {
                elements: old(self)@.elements.push(element),
                ..old(self)@
            }),
    {
        self.elements.push(element);
    }

    /// Formats the arguments in their order, up to the first that fails.
    pub fn write_fmt(&mut self, arguments: Arguments<'_, Context>) -> (result: FormatResult<()>)
        ensures
            formats_in_order(arguments.0@, old(self)@, result, final(self)@),
    {
        let items = arguments.items();
        let count: usize = items.len();
        let ghost before = self@;
        let mut index: usize = 0;
        proof {
            assert(items@.take(0) =~= Seq::empty());
        }
        while index < count
            invariant
                items@ == arguments.0@,
                count == items@.len(),
                index <= count,
                before == old(self)@,
                formats_in_order(items@.take(index as int), before, Ok(()), self@),
            decreases count - index,
        {
            let ghost turn = self@;
            let result = items[index].format(self);
            proof {
                let next = items@.take(index + 1);
                assert(next.drop_last() =~= items@.take(index as int));
                assert(next.last() == items@[index as int]);
                assert(next.last().formats(turn, result, self@));
                assert(formats_in_order(next, before, result, self@));
            }
            match result {
                Ok(unit) => {
                    assert(unit == ());
                },
                Err(error) => {
                    proof {
                        lemma_stops_at_error(items@, index + 1, before, result, self@);
                    }
                    return Err(error);
                },
            }
            index = index + 1;
        }
        assert(items@.take(count as int) =~= items@);
        Ok(())
    }

    /// The elements of what was formatted.
    pub fn into_vec(self) -> (elements: Vec<FormatElement>)
        ensures
            elements@ == self@.elements,
    {
        self.elements
    }
}

/// A value that can be formatted.
pub trait Format<Context> {
    /// Whether formatting the value leads from one state of the formatter to the other, with the
    /// given result.
    spec fn formats(
        &self,
        before: FormatterView<Context>,
        result: FormatResult<()>,
        after: FormatterView<Context>,
    ) -> bool;

    /// Formats the value.
    fn fmt(&self, f: &mut Formatter<Context>) -> (result: FormatResult<()>)
        ensures
            self.formats(old(f)@, result, final(f)@),
    ;
}

/// Keeps a borrow as it is: storing it causes no coercion to another trait object.
struct Held<T> {
    borrow: T,
}

impl<T: Copy> Clone for Held<T> {
    fn clone(&self) -> (held: Self)
        ensures
            held == *self,
    {
        *self
    }
}

impl<T: Copy> Copy for Held<T> {

}

/// A borrowed value to format.
#[verifier::reject_recursive_types(Context)]
pub struct Argument<'fmt, Context> {
    value: Held<&'fmt dyn Format<Context>>,
}

impl<Context> Clone for Argument<'_, Context> {
    fn clone(&self) -> (argument: Self)
        ensures
            argument == *self,
    {
        *self
    }
}

impl<Context> Copy for Argument<'_, Context> {

}

impl<'fmt, Context> Argument<'fmt, Context> {
    /// An argument for the given value.
    pub fn new(value: &'fmt dyn Format<Context>) -> (argument: Self)
        ensures
            forall|before, result, after| #[trigger]
                argument.formats(before, result, after) == value.formats(before, result, after),
    {
        let held = Held { borrow: value };
        Argument { value: held }
    }

    /// Formats the value.
    pub fn format(&self, f: &mut Formatter<Context>) -> (result: FormatResult<()>)
        ensures
            self.formats(old(f)@, result, final(f)@),
    {
        self.value.borrow.fmt(f)
    }
}

impl<Context> Format<Context> for Argument<'_, Context> {
    closed spec fn formats(
        &self,
        before: FormatterView<Context>,
        result: FormatResult<()>,
        after: FormatterView<Context>,
    ) -> bool {
        self.value.borrow.formats(before, result, after)
    }

    fn fmt(&self, f: &mut Formatter<Context>) -> (result: FormatResult<()>) {
        self.format(f)
    }
}

/// Values that are formatted in the given order.
#[verifier::reject_recursive_types(Context)]
pub struct Arguments<'fmt, Context>(pub &'fmt [Argument<'fmt, Context>]);

/// Whether formatting the values one after the other, up to the first that fails, leads from one
/// state of the formatter to the other, with the given result.
pub open spec fn formats_in_order<'fmt, Context>(
    arguments: Seq<Argument<'fmt, Context>>,
    before: FormatterView<Context>,
    result: FormatResult<()>,
    after: FormatterView<Context>,
) -> bool
    decreases arguments.len(),
{
    if arguments.len() == 0 {
        result == Ok::<(), FormatError>(()) && after == before
    } else {
        ||| result is Err && formats_in_order(arguments.drop_last(), before, result, after)
        ||| exists|between: FormatterView<Context>|
            {
                &&& formats_in_order(arguments.drop_last(), before, Ok(()), between)
                &&& #[trigger] arguments.last().formats(between, result, after)
            }
    }
}

/// If one of the values fails, those behind it are not formatted.
proof fn lemma_stops_at_error<'fmt, Context>(
    arguments: Seq<Argument<'fmt, Context>>,
    count: int,
    before: FormatterView<Context>,
    result: FormatResult<()>,
    after: FormatterView<Context>,
)
    requires
        0 <= count <= arguments.len(),
        result is Err,
        formats_in_order(arguments.take(count), before, result, after),
    ensures
        formats_in_order(arguments, before, result, after),
    decreases arguments.len(),
{
    if count == arguments.len() {
        assert(arguments.take(count) =~= arguments);
    } else {
        assert(arguments.drop_last().take(count) =~= arguments.take(count));
        lemma_stops_at_error(arguments.drop_last(), count, before, result, after);
    }
}

/// Whether the values are formatted one after the other without an error, leading from each state of
/// the formatter to the next.
pub open spec fn formats_through<'fmt, Context>(
    arguments: Seq<Argument<'fmt, Context>>,
    states: Seq<FormatterView<Context>>,
) -> bool {
    &&& states.len() == arguments.len() + 1
    &&& forall|i: int|
        0 <= i < arguments.len() ==> (#[trigger] arguments[i]).formats(
            states[i],
            Ok(()),
            states[i + 1],
        )
}

/// If formatting succeeds, every value was formatted without an error, in the given order, and each
/// from where the one before it left off.
pub proof fn lemma_every_value_is_formatted<'fmt, Context>(
    arguments: Seq<Argument<'fmt, Context>>,
    before: FormatterView<Context>,
    after: FormatterView<Context>,
) -> (states: Seq<FormatterView<Context>>)
    requires
        formats_in_order(arguments, before, Ok(()), after),
    ensures
        formats_through(arguments, states),
        states.first() == before,
        states.last() == after,
    decreases arguments.len(),
{
    if arguments.len() == 0 {
        seq![before]
    } else {
        let earlier = arguments.drop_last();
        let between = choose|between: FormatterView<Context>|
            {
                &&& formats_in_order(earlier, before, Ok(()), between)
                &&& #[trigger] arguments.last().formats(between, Ok(()), after)
            };
        let states = lemma_every_value_is_formatted(earlier, before, between);
        let all = states.push(after);
        assert forall|i: int| 0 <= i < arguments.len() implies (#[trigger] arguments[i]).formats(
            all[i],
            Ok(()),
            all[i + 1],
        ) by {
            if i < earlier.len() {
                assert(arguments[i] == earlier[i]);
            }
        }
        all
    }
}

/// If formatting fails, one of the values failed with that error. All values before it were formatted
/// without an error, and none behind it was formatted.
pub proof fn lemma_first_failure_ends<'fmt, Context>(
    arguments: Seq<Argument<'fmt, Context>>,
    before: FormatterView<Context>,
    error: FormatError,
    after: FormatterView<Context>,
) -> (states: Seq<FormatterView<Context>>)
    requires
        formats_in_order(arguments, before, Err(error), after),
    ensures
        0 < states.len() <= arguments.len(),
        formats_through(arguments.take(states.len() - 1), states),
        states.first() == before,
        arguments[states.len() - 1].formats(states.last(), Err(error), after),
    decreases arguments.len(),
{
    let earlier = arguments.drop_last();
    if arguments.len() > 0 && formats_in_order(earlier, before, Err(error), after) {
        let states = lemma_first_failure_ends(earlier, before, error, after);
        assert(arguments.take(states.len() - 1) =~= earlier.take(states.len() - 1));
        states
    } else {
        let between = choose|between: FormatterView<Context>|
            {
                &&& formats_in_order(earlier, before, Ok(()), between)
                &&& #[trigger] arguments.last().formats(between, Err(error), after)
            };
        let states = lemma_every_value_is_formatted(earlier, before, between);
        assert(arguments.take(states.len() - 1) =~= earlier);
        states
    }
}

impl<'fmt, Context> Arguments<'fmt, Context> {
    /// The given arguments, in their order.
    pub fn new(arguments: &'fmt [Argument<'fmt, Context>]) -> (all: Self)
        ensures
            all.0 == arguments,
    {
        Arguments(arguments)
    }

    /// Returns the arguments.
    pub fn items(&self) -> (items: &'fmt [Argument<'fmt, Context>])
        ensures
            items == self.0,
    {
        self.0
    }
}

impl<Context> Copy for Arguments<'_, Context> {

}

impl<Context> Clone for Arguments<'_, Context> {
    fn clone(&self) -> (arguments: Self)
        ensures
            arguments == *self,
    {
        *self
    }
}

impl<Context> Format<Context> for Arguments<'_, Context> {
    open spec fn formats(
        &self,
        before: FormatterView<Context>,
        result: FormatResult<()>,
        after: FormatterView<Context>,
    ) -> bool {
        formats_in_order(self.0@, before, result, after)
    }

    fn fmt(&self, formatter: &mut Formatter<Context>) -> (result: FormatResult<()>) {
        formatter.write_fmt(*self)
    }
}

/// Arguments that are formatted without an error have formatted each of their values, in their order.
pub proof fn lemma_arguments_format_each_value<'fmt, Context>(
    arguments: Arguments<'fmt, Context>,
    before: FormatterView<Context>,
    after: FormatterView<Context>,
) -> (states: Seq<FormatterView<Context>>)
    requires
        arguments.formats(before, Ok(()), after),
    ensures
        formats_through(arguments.0@, states),
        states.first() == before,
        states.last() == after,
{
    lemma_every_value_is_formatted(arguments.0@, before, after)
}

/// Arguments that fail have failed with the error of one of their values, and have formatted all values
/// before it and none behind it.
pub proof fn lemma_arguments_fail_with_value<'fmt, Context>(
    arguments: Arguments<'fmt, Context>,
    before: FormatterView<Context>,
    error: FormatError,
    after: FormatterView<Context>,
) -> (states: Seq<FormatterView<Context>>)
    requires
        arguments.formats(before, Err(error), after),
    ensures
        0 < states.len() <= arguments.0@.len(),
        formats_through(arguments.0@.take(states.len() - 1), states),
        states.first() == before,
        arguments.0@[states.len() - 1].formats(states.last(), Err(error), after),
{
    lemma_first_failure_ends(arguments.0@, before, error, after)
}

impl<'fmt, Context> FromSpecImpl<&'fmt Argument<'fmt, Context>> for Arguments<'fmt, Context> {
    open spec fn obeys_from_spec() -> bool {
        false
    }

    open spec fn from_spec(argument: &'fmt Argument<'fmt, Context>) -> Self {
        arbitrary()
    }
}

impl<'fmt, Context> From<&'fmt Argument<'fmt, Context>> for Arguments<'fmt, Context> {
    fn from(argument: &'fmt Argument<'fmt, Context>) -> (arguments: Self)
        ensures
            arguments.0@ == seq![*argument],
    {
        Arguments::new(std::slice::from_ref(argument))
    }
}

} // verus!
