use vstd::prelude::*;

use crate::random::random_index;

verus! {

/// A bag whose items come out in random order.
pub struct RandomizedQueue<T>(Vec<T>);

impl<T> View for RandomizedQueue<T> {
    type V = Seq<T>;

    closed spec fn view(&self) -> Seq<T> {
        self.0@
    }
}

impl<T> RandomizedQueue<T> {
    /// An empty queue.
    pub fn new() -> (q: Self)
        ensures
            q@ == Seq::<T>::empty(),
    {
        RandomizedQueue(Vec::new())
    }

    /// Whether the queue holds no item.
    pub fn is_empty(&self) -> (r: bool)
        ensures
            r == (self@.len() == 0),
    {
        self.0.is_empty()
    }

    /// Number of items in the queue.
    pub fn size(&self) -> (r: usize)
        ensures
            r == self@.len(),
    {
        self.0.len()
    }

    /// Adds an item.
    pub fn enqueue(&mut self, item: T)
        ensures
            final(self)@ == old(self)@.push(item),
    {
        self.0.push(item)
    }

    /// Removes and returns an item drawn at random; `None` when empty. The
    /// last item takes the place of the one removed.
    pub fn dequeue(&mut self) -> (r: Option<T>)
        ensures
            r is None <==> old(self)@.len() == 0,
            r is None ==> final(self)@ == old(self)@,
            r matches Some(x) ==> exists|i: int|
                0 <= i < old(self)@.len() && old(self)@[i] == x && final(self)@ == old(self)@.update(
                    i,
                    old(self)@.last(),
                ).drop_last(),
    {
        if self.size() > 0 {
            let index = random_index(self.0.len());
            Some(self.0.swap_remove(index))
        } else {
            None
        }
    }

    /// An item drawn at random, left in the queue; `None` when empty.
    pub fn sample(&self) -> (r: Option<&T>)
        ensures
            r is None <==> self@.len() == 0,
            r matches Some(x) ==> self@.contains(*x),
    {
        if self.size() > 0 {
            let index = random_index(self.0.len());
            assert(self@[index as int] == self.0@[index as int]);
            Some(&self.0[index])
        } else {
            None
        }
    }
}

} // verus!
