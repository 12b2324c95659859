use vstd::prelude::*;

verus! {

/// An entry of the frontier: the handle of a search node, its estimated
/// total cost `depth + manhattan`, and its depth.
#[derive(Debug, Clone, Copy, PartialEq, Eq, Structural)]
pub struct Entry {
    pub handle: usize,
    pub priority: usize,
    pub depth: usize,
}

/// `a` leaves the frontier no later than `b`: lower priority first, and among
/// equal priorities the later handle first.
pub open spec fn precedes(a: Entry, b: Entry) -> bool {
    a.priority < b.priority || (a.priority == b.priority && a.handle >= b.handle)
}

/// The open entries of an A* search, taken out in the order of `precedes`.
pub struct Frontier {
    entries: Vec<Entry>,
}

impl View for Frontier {
    type V = Seq<Entry>;

    closed spec fn view(&self) -> Seq<Entry> {
        self.entries@
    }
}

impl Frontier {
    pub fn new() -> (f: Frontier)
        ensures
            f@ == Seq::<Entry>::empty(),
    {
        Frontier { entries: Vec::new() }
    }

    pub fn push(&mut self, e: Entry)
        ensures
            final(self)@ == old(self)@.push(e),
    {
        self.entries.push(e);
    }

    /// Takes out the entry that precedes all others; `None` when empty.
    pub fn pop(&mut self) -> (r: Option<Entry>)
        ensures
            r is None <==> old(self)@.len() == 0,
            r is None ==> final(self)@ == old(self)@,
            r matches Some(e) ==> exists|i: int|
                0 <= i < old(self)@.len() && old(self)@[i] == e && final(self)@ == old(self)@.remove(
                    i,
                ),
            r matches Some(e) ==> forall|j: int|
                0 <= j < old(self)@.len() ==> precedes(e, #[trigger] old(self)@[j]),
    {
        let len = self.entries.len();
        if len == 0 {
            return None;
        }
        let mut best: usize = 0;
        let mut k: usize = 1;
        while k < len
            invariant
                len == self.entries@.len(),
                self.entries@ == old(self)@,
                0 <= best < k <= len,
                forall|j: int| 0 <= j < k ==> precedes(self.entries@[best as int], #[trigger] self.entries@[j]),
            decreases len - k,
        {
            let a = self.entries[k];
            let b = self.entries[best];
            if a.priority < b.priority || (a.priority == b.priority && a.handle >= b.handle) {
                best = k;
            }
            k += 1;
        }
        let e = self.entries.remove(best);
        Some(e)
    }
}

} // verus!
