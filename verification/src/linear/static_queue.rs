use vstd::prelude::*;

verus! {

/// A FIFO queue over a growable array with amortized slot reuse.
///
/// Dequeued slots before the front index are filled with the element
/// type's default value as a placeholder and never read again; when the
/// last live element leaves, the storage is reset, so the array does not
/// grow without bound under balanced enqueue/dequeue traffic. The element
/// type must therefore offer a default value for the slot-clearing
/// technique.
pub struct SQueue<T: Default> {
    buf: Vec<T>,
    len: usize,
    front: usize,
    rear: usize,
}

impl<T: Default> SQueue<T> {
    /// The live contents of the queue, front first.
    pub closed spec fn contents(self) -> Seq<T> {
        self.buf@.subrange(self.front as int, self.buf@.len() as int)
    }

    /// Structural invariant of the index bookkeeping.
    pub closed spec fn wf(self) -> bool {
        if self.buf@.len() == 0 {
            self.front == 0 && self.rear == 0 && self.len == 0
        } else {
            &&& self.front <= self.rear
            &&& self.rear == self.buf@.len() - 1
            &&& self.len == self.buf@.len() - self.front
        }
    }

    /// Constructs a new, empty queue.
    pub fn new() -> (r: SQueue<T>)
        ensures
            r.wf(),
            r.contents() == Seq::<T>::empty(),
    {
        let q = SQueue { buf: Vec::new(), len: 0, front: 0, rear: 0 };
        proof {
            assert(q.contents() =~= Seq::<T>::empty());
        }
        q
    }

    /// Adds a new item to the rear of the queue.
    pub fn enqueue(&mut self, item: T)
        requires
            old(self).wf(),
        ensures
            final(self).wf(),
            final(self).contents() == old(self).contents().push(item),
    {
        self.buf.push(item);
        let n = self.buf.len();
        self.rear = n - 1;
        self.len = self.len + 1;
        proof {
            assert(self.contents() =~= old(self).contents().push(item));
        }
    }

    /// Removes and returns the element at the front of the queue, or
    /// `None` if the queue is empty.
    pub fn dequeue(&mut self) -> (r: Option<T>)
        requires
            old(self).wf(),
        ensures
            final(self).wf(),
            match r {
                Some(item) => {
                    &&& old(self).contents().len() > 0
                    &&& item == old(self).contents()[0]
                    &&& final(self).contents() == old(self).contents().subrange(
                        1,
                        old(self).contents().len() as int,
                    )
                },
                None => {
                    &&& old(self).contents().len() == 0
                    &&& final(self).contents() == old(self).contents()
                },
            },
    {
        if self.len == 0 {
            proof {
                assert(self.contents() =~= old(self).contents());
            }
            return None;
        }
        if self.front == self.rear {
            // The last live element leaves: take it and reset the storage,
            // so the array does not keep its dead placeholder prefix.
            let item = self.buf.pop().unwrap();
            self.buf.clear();
            self.front = 0;
            self.rear = 0;
            self.len = 0;
            proof {
                assert(old(self).contents().len() == 1);
                assert(self.contents() =~= old(self).contents().subrange(
                    1,
                    old(self).contents().len() as int,
                ));
            }
            Some(item)
        } else {
            // Move the front element out and leave a placeholder in its
            // slot, in constant time: displace the front element with the
            // rear one, park a placeholder at the rear, swap it into the
            // front slot, and put the rear element back.
            let item = self.buf.swap_remove(self.front);
            let placeholder = T::default();
            let ghost pval = placeholder;
            self.buf.push(placeholder);
            let moved_rear = self.buf.swap_remove(self.front);
            self.buf.push(moved_rear);
            self.front = self.front + 1;
            self.len = self.len - 1;
            proof {
                assert(self.buf@ =~= old(self).buf@.update(old(self).front as int, pval));
                assert(self.contents() =~= old(self).contents().subrange(
                    1,
                    old(self).contents().len() as int,
                ));
            }
            Some(item)
        }
    }

    /// Returns a reference to the element at the front of the queue,
    /// without removing it.
    pub fn peek(&self) -> (r: Option<&T>)
        requires
            self.wf(),
        ensures
            match r {
                Some(item) => self.contents().len() > 0 && *item == self.contents()[0],
                None => self.contents().len() == 0,
            },
    {
        if self.len == 0 {
            None
        } else {
            Some(&self.buf[self.front])
        }
    }

    /// Returns a reference to the element at the rear of the queue,
    /// without removing it.
    pub fn peek_rear(&self) -> (r: Option<&T>)
        requires
            self.wf(),
        ensures
            match r {
                Some(item) => self.contents().len() > 0 && *item == self.contents().last(),
                None => self.contents().len() == 0,
            },
    {
        if self.len == 0 {
            None
        } else {
            Some(&self.buf[self.rear])
        }
    }

    /// Returns the number of elements in the queue.
    pub fn len(&self) -> (r: usize)
        requires
            self.wf(),
        ensures
            r == self.contents().len(),
    {
        self.len
    }
}

} // verus!
