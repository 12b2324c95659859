use vstd::prelude::*;

verus! {

/// A first-in first-out queue of bounded capacity over a ring of slots.
/// One slot stays free, so that a full ring and an empty one differ.
#[derive(Debug)]
pub struct CircularBuffer<T> {
    buf: Vec<Option<T>>,
    en_pos: usize,
    de_pos: usize,
}

impl<T> CircularBuffer<T> {
    /// Slot of the `k`-th oldest item.
    pub closed spec fn slot(&self, k: int) -> int {
        if self.de_pos + k < self.buf@.len() {
            self.de_pos + k
        } else {
            self.de_pos + k - self.buf@.len()
        }
    }

    pub closed spec fn count(&self) -> nat {
        if self.en_pos >= self.de_pos {
            (self.en_pos - self.de_pos) as nat
        } else {
            (self.en_pos + self.buf@.len() - self.de_pos) as nat
        }
    }

    /// Most items the buffer holds.
    pub closed spec fn capacity(&self) -> nat {
        (self.buf@.len() - 1) as nat
    }

    /// The items, oldest first.
    pub closed spec fn items(&self) -> Seq<T> {
        Seq::new(self.count(), |k: int| self.buf@[self.slot(k)]->Some_0)
    }

    /// Exactly the slots of the items are filled.
    pub closed spec fn wf(&self) -> bool {
        &&& self.buf@.len() >= 2
        &&& self.en_pos < self.buf@.len()
        &&& self.de_pos < self.buf@.len()
        &&& forall|k: int| 0 <= k < self.count() ==> (#[trigger] self.buf@[self.slot(k)]) is Some
        &&& forall|i: int|
            0 <= i < self.buf@.len() ==> ((#[trigger] self.buf@[i]) is Some <==> exists|k: int|
                0 <= k < self.count() && self.slot(k) == i)
    }

    /// An empty buffer for up to `size` items.
    pub fn new(size: usize) -> (c: Self)
        requires
            0 < size < usize::MAX,
        ensures
            c.wf(),
            c.capacity() == size,
            c.items() == Seq::<T>::empty(),
    {
        let mut v: Vec<Option<T>> = Vec::new();
        let slots = size + 1;
        let mut i: usize = 0;
        while i < slots
            invariant
                0 <= i <= slots,
                slots == size + 1,
                v@.len() == i,
                forall|k: int| 0 <= k < i ==> (#[trigger] v@[k]) is None,
            decreases slots - i,
        {
            v.push(None);
            i += 1;
        }
        let c = CircularBuffer { buf: v, en_pos: 0, de_pos: 0 };
        assert(c.items() =~= Seq::<T>::empty());
        c
    }

    /// Adds `item` as the newest.
    pub fn enqueue(&mut self, item: T)
        requires
            old(self).wf(),
            old(self).items().len() < old(self).capacity(),
        ensures
            final(self).wf(),
            final(self).capacity() == old(self).capacity(),
            final(self).items() == old(self).items().push(item),
    {
        let ghost before = *self;
        let len = self.buf.len();
        let next_pos = if self.en_pos + 1 == len {
            0
        } else {
            self.en_pos + 1
        };
        self.buf.set(self.en_pos, Some(item));
        self.en_pos = next_pos;
        proof {
            assert(before.slot(before.count() as int) == before.en_pos);
            assert(self.count() == before.count() + 1);
            assert forall|k: int| 0 <= k < self.count() implies #[trigger] self.slot(k) == before.slot(k) by {}
            assert forall|k: int| 0 <= k < before.count() implies self.buf@[#[trigger] self.slot(k)]
                == before.buf@[before.slot(k)] by {
                assert(before.buf@[before.slot(k)] is Some);
            }
            assert(self.items() =~= before.items().push(item));
            assert forall|i: int| 0 <= i < self.buf@.len() implies ((#[trigger] self.buf@[i]) is Some
                <==> exists|k: int| 0 <= k < self.count() && self.slot(k) == i) by {
                if i == before.en_pos {
                    assert(self.slot(before.count() as int) == i);
                } else if self.buf@[i] is Some {
                    let k = choose|k: int| 0 <= k < before.count() && before.slot(k) == i;
                    assert(self.slot(k) == i);
                }
            }
        }
    }

    /// Removes and returns the oldest item; `None` when empty.
    pub fn dequeue(&mut self) -> (r: Option<T>)
        requires
            old(self).wf(),
        ensures
            final(self).wf(),
            final(self).capacity() == old(self).capacity(),
            old(self).items().len() == 0 ==> r is None && final(self).items() == old(self).items(),
            old(self).items().len() > 0 ==> r == Some(old(self).items()[0]) && final(self).items()
                == old(self).items().drop_first(),
    {
        if self.de_pos == self.en_pos {
            None
        } else {
            let ghost before = *self;
            let len = self.buf.len();
            let item = self.buf[self.de_pos].take();
            self.de_pos = if self.de_pos + 1 == len {
                0
            } else {
                self.de_pos + 1
            };
            proof {
                assert(before.slot(0) == before.de_pos);
                assert(self.count() == before.count() - 1);
                assert forall|k: int| 0 <= k < self.count() implies #[trigger] self.slot(k)
                    == before.slot(k + 1) by {}
                assert forall|k: int| 0 <= k < self.count() implies self.buf@[#[trigger] self.slot(k)]
                    == before.buf@[before.slot(k + 1)] by {}
                assert(self.items() =~= before.items().drop_first());
                assert forall|i: int| 0 <= i < self.buf@.len() implies ((#[trigger] self.buf@[i]) is Some
                    <==> exists|k: int| 0 <= k < self.count() && self.slot(k) == i) by {
                    if i != before.de_pos && self.buf@[i] is Some {
                        let k = choose|k: int| 0 <= k < before.count() && before.slot(k) == i;
                        assert(k != 0);
                        assert(self.slot(k - 1) == i);
                    }
                    if i != before.de_pos && (exists|k: int| 0 <= k < self.count() && self.slot(k) == i) {
                        let k = choose|k: int| 0 <= k < self.count() && self.slot(k) == i;
                        assert(before.slot(k + 1) == i);
                    }
                    if i == before.de_pos {
                        if exists|k: int| 0 <= k < self.count() && self.slot(k) == i {
                            let k = choose|k: int| 0 <= k < self.count() && self.slot(k) == i;
                            assert(before.slot(k + 1) == before.slot(0));
                        }
                    }
                }
            }
            item
        }
    }

    /// The slot of the oldest item: the item, or `None` when empty.
    pub fn peek_oldest(&self) -> (r: &Option<T>)
        requires
            self.wf(),
        ensures
            self.items().len() == 0 ==> r is None,
            self.items().len() > 0 ==> *r == Some(self.items()[0]),
    {
        proof {
            assert(self.slot(0) == self.de_pos);
            if self.count() == 0 {
                if self.buf@[self.de_pos as int] is Some {
                    let k = choose|k: int| 0 <= k < self.count() && self.slot(k) == self.de_pos;
                }
            } else {
                assert(self.buf@[self.slot(0)] is Some);
            }
        }
        &self.buf[self.de_pos]
    }

    /// The slot of the newest item: the item, or `None` when empty.
    pub fn peek_newest(&self) -> (r: &Option<T>)
        requires
            self.wf(),
        ensures
            self.items().len() == 0 ==> r is None,
            self.items().len() > 0 ==> *r == Some(self.items().last()),
    {
        let new_pos = if self.en_pos == 0 {
            self.buf.len() - 1
        } else {
            self.en_pos - 1
        };
        proof {
            if self.count() == 0 {
                if self.buf@[new_pos as int] is Some {
                    let k = choose|k: int| 0 <= k < self.count() && self.slot(k) == new_pos;
                }
            } else {
                assert(self.slot(self.count() - 1) == new_pos);
                assert(self.buf@[self.slot(self.count() - 1)] is Some);
            }
        }
        &self.buf[new_pos]
    }
}

} // verus!
