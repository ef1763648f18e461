//! The frontier of a search: entries waiting to be expanded, nearest first.

use vstd::prelude::*;
use crate::buckets::{
    empty_between, flat, lemma_flat_all_empty, lemma_flat_ascending, lemma_flat_first,
    lemma_flat_push, lemma_flat_rank, lemma_flat_take_last, lemma_flat_within,
};
use crate::nearest_queue::{MAX_DISTANCE, ROWS};
use crate::ranking::{ascending, place, rank, within};

verus! {

/// A priority queue of `(feature-id, distance)` entries that hands out an
/// entry of least distance first. Like the bounded queue it keeps one row
/// per distance, from 0 to `MAX_DISTANCE`.
#[derive(Clone, Debug)]
pub struct Candidates {
    low: usize,
    rows: Vec<Vec<u32>>,
}

impl View for Candidates {
    type V = Seq<(u32, u32)>;

    /// The entries held, nearest first, entries of equal distance in order of arrival.
    closed spec fn view(&self) -> Seq<(u32, u32)> {
        flat(self.grid(), ROWS as nat)
    }
}

impl Candidates {
    /// The rows as sequences.
    pub closed spec fn grid(&self) -> Seq<Seq<u32>> {
        Seq::new(self.rows@.len(), |i: int| self.rows@[i]@)
    }

    /// There is a row for each distance, and no item below the row that the search for the
    /// nearest starts at.
    pub closed spec fn wf(&self) -> bool {
        &&& self.rows@.len() == ROWS
        &&& self.low <= ROWS
        &&& empty_between(self.grid(), 0, self.low as int)
    }

    /// The entries are in ascending order, at distances up to `MAX_DISTANCE`.
    pub proof fn lemma_wf(&self)
        requires
            self.wf(),
        ensures
            ascending(self@),
            within(self@, MAX_DISTANCE),
    {
        lemma_flat_ascending(self.grid(), ROWS as nat);
        lemma_flat_within(self.grid(), ROWS as nat);
    }

    /// A frontier without entries.
    pub fn new() -> (c: Self)
        ensures
            c.wf(),
            c@ == Seq::<(u32, u32)>::empty(),
    {
        let mut rows: Vec<Vec<u32>> = Vec::new();
        let mut i: usize = 0;
        while i < ROWS
            invariant
                i <= ROWS,
                rows@.len() == i,
                forall|j: int| 0 <= j < i ==> (#[trigger] rows@[j])@.len() == 0,
            decreases ROWS - i,
        {
            rows.push(Vec::new());
            i += 1;
        }
        let c = Candidates { low: ROWS, rows };
        proof {
            assert(empty_between(c.grid(), 0, ROWS as int));
            lemma_flat_all_empty(c.grid(), ROWS as nat);
        }
        c
    }

    /// Removes every entry, keeping the rows' allocations.
    pub fn clear(&mut self)
        requires
            old(self).wf(),
        ensures
            final(self).wf(),
            final(self)@ == Seq::<(u32, u32)>::empty(),
    {
        let mut i: usize = 0;
        while i < ROWS
            invariant
                i <= ROWS,
                self.rows@.len() == ROWS,
                forall|j: int| 0 <= j < i ==> (#[trigger] self.rows@[j])@.len() == 0,
            decreases ROWS - i,
        {
            self.rows[i].clear();
            i += 1;
        }
        self.low = ROWS;
        proof {
            assert(empty_between(self.grid(), 0, ROWS as int));
            lemma_flat_all_empty(self.grid(), ROWS as nat);
        }
    }

    /// Adds an entry, behind those that are at least as near.
    pub fn push(&mut self, id: u32, distance: u32)
        requires
            old(self).wf(),
            distance <= MAX_DISTANCE,
        ensures
            final(self).wf(),
            final(self)@ == place(old(self)@, id, distance),
    {
        let ghost before = self.grid();
        proof {
            lemma_flat_push(before, ROWS as nat, distance, id);
        }
        self.rows[distance as usize].push(id);
        if (distance as usize) < self.low {
            self.low = distance as usize;
        }
        proof {
            let after = before.update(distance as int, before[distance as int].push(id));
            assert(self.grid() =~= after);
            assert forall|j: int| 0 <= j < self.low implies (#[trigger] after[j]).len() == 0 by {
                assert(before[j].len() == 0);
            }
        }
    }

    /// Takes out an entry of least distance: of several, the one that came
    /// last. `None` when there is no entry.
    pub fn pop(&mut self) -> (taken: Option<(u32, u32)>)
        requires
            old(self).wf(),
        ensures
            final(self).wf(),
            match taken {
                None => old(self)@.len() == 0 && final(self)@ == old(self)@,
                Some(e) => {
                    &&& old(self)@.len() > 0
                    &&& 0 <= rank(old(self)@, old(self)@[0].1) - 1 < old(self)@.len()
                    &&& e == old(self)@[rank(old(self)@, old(self)@[0].1) - 1]
                    &&& e.1 == old(self)@[0].1
                    &&& final(self)@ == old(self)@.remove(rank(old(self)@, old(self)@[0].1) - 1)
                },
            },
    {
        let mut i: usize = self.low;
        while i < ROWS && self.rows[i].len() == 0
            invariant
                i <= ROWS,
                self.rows == old(self).rows,
                self.rows@.len() == ROWS,
                empty_between(self.grid(), 0, i as int),
            decreases ROWS - i,
        {
            assert(self.grid()[i as int].len() == 0);
            i += 1;
        }
        self.low = i;
        if i == ROWS {
            proof {
                lemma_flat_all_empty(self.grid(), ROWS as nat);
            }
            None
        } else {
            let ghost before = self.grid();
            proof {
                assert(before[i as int].len() > 0);
                lemma_flat_first(before, ROWS as nat, i as u32);
                lemma_flat_rank(before, ROWS as nat, i as u32);
                lemma_flat_take_last(before, ROWS as nat, i as u32);
            }
            let id = self.rows[i].pop().unwrap();
            proof {
                let after = before.update(i as int, before[i as int].drop_last());
                assert(self.grid() =~= after);
                assert forall|j: int| 0 <= j < i implies (#[trigger] after[j]).len() == 0 by {
                    assert(before[j].len() == 0);
                }
            }
            Some((id, i as u32))
        }
    }
}

impl Default for Candidates {
    /// A frontier without entries.
    fn default() -> (c: Self)
        ensures
            c.wf(),
            c@ == Seq::<(u32, u32)>::empty(),
    {
        Candidates::new()
    }
}

} // verus!
