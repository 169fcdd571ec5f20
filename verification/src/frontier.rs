//! The priority frontier of the search: (state, priority) entries kept in
//! insertion order. Duplicate insertions of one state are tolerated;
//! `pop_min` serves the minimum priority first and breaks ties by age, so
//! with equal priorities the frontier behaves as a first-in first-out
//! queue.

use vstd::prelude::*;

verus! {

/// A priority container of discovered states. The view is the sequence of
/// live `(state, priority)` entries, oldest first.
pub struct Frontier {
    entries: Vec<(u64, u64)>,
}

impl View for Frontier {
    type V = Seq<(u64, u64)>;

    closed spec fn view(&self) -> Seq<(u64, u64)> {
        self.entries@
    }
}

impl Frontier {
    /// An empty frontier.
    pub fn new() -> (r: Frontier)
        ensures
            r@ == Seq::<(u64, u64)>::empty(),
    {
        Frontier { entries: Vec::new() }
    }

    /// Whether no entry is left.
    pub fn is_empty(&self) -> (r: bool)
        ensures
            r == (self@.len() == 0),
    {
        self.entries.len() == 0
    }

    /// Add a state with a priority. The same state may be inserted again
    /// later with another priority; stale entries are discarded by the
    /// caller when popped.
    pub fn insert(&mut self, state: u64, priority: u64)
        ensures
            final(self)@ == old(self)@.push((state, priority)),
    {
        self.entries.push((state, priority));
    }

    /// Remove and return the state of the oldest entry among those of
    /// minimal priority, or `None` when the frontier is empty.
    pub fn pop_min(&mut self) -> (r: Option<u64>)
        ensures
            old(self)@.len() == 0 ==> r is None && final(self)@ == old(self)@,
            old(self)@.len() > 0 ==> exists|i: int|
                {
                    &&& 0 <= i < old(self)@.len()
                    &&& r == Some((#[trigger] old(self)@[i]).0)
                    &&& final(self)@ == old(self)@.remove(i)
                    &&& forall|j: int|
                        0 <= j < old(self)@.len() ==> old(self)@[i].1 <= (#[trigger] old(
                            self,
                        )@[j]).1
                    &&& forall|j: int| 0 <= j < i ==> old(self)@[i].1 < (#[trigger] old(self)@[j]).1
                },
    {
        if self.entries.len() == 0 {
            return None;
        }
        let mut best: usize = 0;
        let mut idx: usize = 1;
        while idx < self.entries.len()
            invariant
                best < idx <= self.entries@.len(),
                forall|j: int|
                    0 <= j < idx ==> self.entries@[best as int].1 <= (#[trigger] self.entries@[j]).1,
                forall|j: int| 0 <= j < best ==> self.entries@[best as int].1 < (#[trigger] self.entries@[j]).1,
            decreases self.entries@.len() - idx,
        {
            if self.entries[idx].1 < self.entries[best].1 {
                best = idx;
            }
            idx = idx + 1;
        }
        let entry = self.entries.remove(best);
        Some(entry.0)
    }
}

} // verus!
