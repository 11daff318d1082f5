//! A last-in, first-out stack.
use vstd::prelude::*;

verus! {

/// A stack whose view lists its values from the bottom up.
pub struct Stack<T> {
    values: Vec<T>,
}

impl<T> View for Stack<T> {
    type V = Seq<T>;

    closed spec fn view(&self) -> Seq<T> {
        self.values@
    }
}

impl<T> Stack<T> {
    pub fn new() -> (stack: Self)
        ensures
            stack@ == Seq::<T>::empty(),
    {
        Stack { values: Vec::new() }
    }

    /// A stack holding `value` alone.
    pub fn of(value: T) -> (stack: Self)
        ensures
            stack@ == seq![value],
    {
        let mut stack = Self::new();
        stack.push(value);
        stack
    }

    /// The value on top, if there is one.
    pub fn top(&self) -> (top: Option<&T>)
        ensures
            self@.len() == 0 ==> top is None,
            self@.len() > 0 ==> top == Some(&self@.last()),
    {
        if self.values.len() == 0 {
            None
        } else {
            Some(&self.values[self.values.len() - 1])
        }
    }

    pub fn push(&mut self, value: T)
        ensures
            final(self)@ == old(self)@.push(value),
    {
        self.values.push(value);
    }

    /// Takes the value on top off, if there is one.
    pub fn pop(&mut self) -> (top: Option<T>)
        ensures
            old(self)@.len() == 0 ==> top is None && final(self)@ == old(self)@,
            old(self)@.len() > 0 ==> top == Some(old(self)@.last()) && final(self)@ == old(self)@.drop_last(),
    {
        self.values.pop()
    }
}

} // verus!
