//! The set of features that a search has come across.
//!
//! Each feature-id has a mark. A feature is in the set when its mark is the
//! current round, so that the set is emptied by moving on to the next round.

use vstd::prelude::*;
use vstd::set_lib::lemma_len_subset;

verus! {

/// The feature-ids below `n`.
pub open spec fn below(n: nat) -> Set<u32> {
    Set::new(|x: u32| (x as nat) < n)
}

/// There are `n` feature-ids below `n`.
pub proof fn lemma_below(n: nat)
    requires
        n <= u32::MAX + 1,
    ensures
        below(n).finite(),
        below(n).len() == n,
    decreases n,
{
    if n == 0 {
        assert(below(0) =~= Set::<u32>::empty());
    } else {
        lemma_below((n - 1) as nat);
        assert(below(n) =~= below((n - 1) as nat).insert((n - 1) as u32));
    }
}

/// A set of feature-ids that is emptied in constant time.
#[derive(Clone, Debug)]
pub struct Seen {
    round: u32,
    marks: Vec<u32>,
}

impl View for Seen {
    type V = Set<u32>;

    /// The feature-ids in the set.
    closed spec fn view(&self) -> Set<u32> {
        Set::new(|x: u32| (x as int) < self.marks@.len() && self.marks@[x as int] == self.round)
    }
}

impl Seen {
    /// The set takes the feature-ids below `room()`.
    pub closed spec fn room(&self) -> nat {
        self.marks@.len()
    }

    /// No mark is ahead of the current round.
    pub closed spec fn wf(&self) -> bool {
        &&& self.round >= 1
        &&& forall|i: int| 0 <= i < self.marks@.len() ==> #[trigger] self.marks@[i] <= self.round
    }

    /// The set is finite and holds feature-ids below `room()` only.
    pub proof fn lemma_bounded(&self)
        ensures
            self@.finite(),
            self@.subset_of(below(self.room())),
            forall|x: u32| self@.contains(x) ==> x < self.room(),
    {
        let n: nat = if self.room() <= u32::MAX + 1 {
            self.room()
        } else {
            (u32::MAX + 1) as nat
        };
        lemma_below(n);
        assert(self@.subset_of(below(n)));
        lemma_len_subset(self@, below(n));
    }

    /// An empty set without room.
    pub fn new() -> (s: Self)
        ensures
            s.wf(),
            s@ == Set::<u32>::empty(),
            s.room() == 0,
    {
        let s = Seen { round: 1, marks: Vec::new() };
        assert(s@ =~= Set::<u32>::empty());
        s
    }

    /// Empties the set and gives it room for the feature-ids below `n`.
    pub fn clear(&mut self, n: usize)
        requires
            old(self).wf(),
        ensures
            final(self).wf(),
            final(self)@ == Set::<u32>::empty(),
            final(self).room() >= n,
    {
        if self.round == u32::MAX {
            let mut i: usize = 0;
            while i < self.marks.len()
                invariant
                    i <= self.marks@.len(),
                    forall|j: int| 0 <= j < i ==> #[trigger] self.marks@[j] == 0,
                decreases self.marks@.len() - i,
            {
                self.marks[i] = 0;
                i += 1;
            }
            self.round = 1;
        } else {
            self.round += 1;
        }
        while self.marks.len() < n
            invariant
                self.round >= 1,
                forall|j: int| 0 <= j < self.marks@.len() ==> #[trigger] self.marks@[j] < self.round,
            decreases n - self.marks@.len(),
        {
            self.marks.push(0);
        }
        assert(self@ =~= Set::<u32>::empty());
    }

    /// Whether the set holds `id`.
    pub fn contains(&self, id: u32) -> (found: bool)
        ensures
            found == self@.contains(id),
    {
        (id as usize) < self.marks.len() && self.marks[id as usize] == self.round
    }

    /// Puts `id` into the set. Returns whether it was not there before.
    pub fn insert(&mut self, id: u32) -> (fresh: bool)
        requires
            old(self).wf(),
            id < old(self).room(),
        ensures
            final(self).wf(),
            final(self).room() == old(self).room(),
            final(self)@ == old(self)@.insert(id),
            fresh == !old(self)@.contains(id),
    {
        if self.marks[id as usize] == self.round {
            assert(self@ =~= old(self)@.insert(id));
            false
        } else {
            self.marks[id as usize] = self.round;
            assert(self@ =~= old(self)@.insert(id));
            true
        }
    }
}

impl Default for Seen {
    /// An empty set without room.
    fn default() -> (s: Self)
        ensures
            s.wf(),
            s@ == Set::<u32>::empty(),
            s.room() == 0,
    {
        Seen::new()
    }
}

} // verus!
