use vstd::prelude::*;

verus! {

/// A LIFO stack over a growable array, unbounded.
pub struct Stack<T> {
    buf: Vec<T>,
}

impl<T> Stack<T> {
    /// The items on the stack, bottom first.
    pub closed spec fn items(self) -> Seq<T> {
        self.buf@
    }

    /// Creates a new, empty stack.
    pub fn new() -> (r: Stack<T>)
        ensures
            r.items() == Seq::<T>::empty(),
    {
        Stack { buf: Vec::new() }
    }

    /// Returns the number of elements on the stack.
    pub fn len(&self) -> (r: usize)
        ensures
            r == self.items().len(),
    {
        self.buf.len()
    }

    /// Adds a new item to the top of the stack.
    pub fn push(&mut self, item: T)
        ensures
            final(self).items() == old(self).items().push(item),
    {
        self.buf.push(item);
    }

    /// Removes and returns the top item off the stack, or `None` if the
    /// stack is empty.
    pub fn pop(&mut self) -> (r: Option<T>)
        ensures
            match r {
                Some(item) => {
                    &&& old(self).items().len() > 0
                    &&& item == old(self).items().last()
                    &&& final(self).items() == old(self).items().drop_last()
                },
                None => {
                    &&& old(self).items().len() == 0
                    &&& final(self).items() == old(self).items()
                },
            },
    {
        self.buf.pop()
    }

    /// Returns a reference to the top element of the stack, or `None` if
    /// the stack is empty.
    pub fn peek(&self) -> (r: Option<&T>)
        ensures
            match r {
                Some(item) => self.items().len() > 0 && *item == self.items().last(),
                None => self.items().len() == 0,
            },
    {
        if self.buf.len() == 0 {
            None
        } else {
            Some(&self.buf[self.buf.len() - 1])
        }
    }
}

} // verus!
