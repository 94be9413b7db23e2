//! Stacks.

use vstd::prelude::*;

verus! {

/// A stack.
pub trait Stack<T: Copy> {
    /// The items on the stack, the top last.
    spec fn items(&self) -> Seq<T>;

    /// Whether the stack is in a valid state.
    spec fn valid(&self) -> bool;

    /// Removes the top item and returns it.
    fn pop(&mut self) -> (item: Option<T>)
        requires
            old(self).valid(),
        ensures
            final(self).valid(),
            old(self).items().len() == 0 ==> item is None && final(self).items() == old(
                self,
            ).items(),
            old(self).items().len() > 0 ==> item == Some(old(self).items().last())
                && final(self).items() == old(self).items().drop_last(),
    ;

    /// Puts an item on top of the stack.
    fn push(&mut self, item: T)
        requires
            old(self).valid(),
        ensures
            final(self).valid(),
            final(self).items() == old(self).items().push(item),
    ;

    /// Returns the top item.
    fn top(&self) -> (item: Option<T>)
        requires
            self.valid(),
        ensures
            self.items().len() == 0 ==> item is None,
            self.items().len() > 0 ==> item == Some(self.items().last()),
    ;
}

impl<T: Copy> Stack<T> for Vec<T> {
    open spec fn items(&self) -> Seq<T> {
        self@
    }

    open spec fn valid(&self) -> bool {
        true
    }

    fn pop(&mut self) -> (item: Option<T>) {
        self.pop()
    }

    fn push(&mut self, item: T) {
        self.push(item)
    }

    fn top(&self) -> (item: Option<T>) {
        if self.len() == 0 {
            None
        } else {
            Some(self[self.len() - 1])
        }
    }
}

/// A stack on top of a borrowed one. Changes do not affect the borrowed stack.
#[derive(Debug)]
pub struct StackedStack<'a, T> {
    /// The items of the borrowed stack.
    base: &'a [T],
    /// How many items of the borrowed stack are left.
    base_len: usize,
    /// The items on top of the borrowed ones.
    stack: Vec<T>,
}

impl<'a, T: Copy> StackedStack<'a, T> {
    /// A stack that holds the items of `base`.
    pub fn new(base: &'a [T]) -> (stack: Self)
        ensures
            stack.valid(),
            stack.items() == base@,
    {
        let stack = StackedStack { base, base_len: base.len(), stack: Vec::new() };
        assert(stack.items() =~= base@);
        stack
    }

    /// Another stack with the same items. Changes to one do not affect the other.
    pub fn copied(&self) -> (copy: Self)
        requires
            self.valid(),
        ensures
            copy.valid(),
            copy.items() == self.items(),
    {
        let mut stack: Vec<T> = Vec::new();
        let mut index: usize = 0;
        while index < self.stack.len()
            invariant
                index <= self.stack@.len(),
                stack@ == self.stack@.take(index as int),
            decreases self.stack@.len() - index,
        {
            stack.push(self.stack[index]);
            index = index + 1;
            assert(stack@ =~= self.stack@.take(index as int));
        }
        assert(stack@ =~= self.stack@);
        StackedStack { base: self.base, base_len: self.base_len, stack }
    }
}

impl<'a, T: Copy> Stack<T> for StackedStack<'a, T> {
    closed spec fn items(&self) -> Seq<T> {
        self.base@.take(self.base_len as int) + self.stack@
    }

    closed spec fn valid(&self) -> bool {
        self.base_len <= self.base@.len()
    }

    fn pop(&mut self) -> (item: Option<T>) {
        let ghost before = self.items();
        match self.stack.pop() {
            Some(item) => {
                assert(self.items() =~= before.drop_last());
                Some(item)
            },
            None => if self.base_len == 0 {
                None
            } else {
                self.base_len = self.base_len - 1;
                assert(self.items() =~= before.drop_last());
                Some(self.base[self.base_len])
            },
        }
    }

    fn push(&mut self, item: T) {
        let ghost before = self.items();
        self.stack.push(item);
        assert(self.items() =~= before.push(item));
    }

    fn top(&self) -> (item: Option<T>) {
        if self.stack.len() > 0 {
            Some(self.stack[self.stack.len() - 1])
        } else if self.base_len > 0 {
            Some(self.base[self.base_len - 1])
        } else {
            None
        }
    }
}

} // verus!
